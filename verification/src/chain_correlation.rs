//! Correlation of proxied requests with client-side call chains: the
//! `x-chain-*` request headers, and a fallback hash of the prompt.
//!
//! The prompt hash is a shared contract with the client library: SHA-256 of
//! the trimmed text of the LAST message whose role is `user`, as the first
//! 16 lower-case hex digits. A string content is taken as it is; a list of
//! parts gives the concatenation of the `text` of its `type: "text"` parts.

use vstd::prelude::*;
use crate::compress::part_text;
use crate::json::{get_field, items_of, lemma_set_field_get, set_field, str_field, Json, JsonView};
use crate::text::{
    hex_char, hex_digit_value, hex_lower, hex_prefix, lossy_string, parse_unsigned, parse_unsigned_spec,
    trim, trim_spec, utf8_lossy, hex_value,
};
use vstd::utf8::{encode_scalar, encode_utf8};
use vstd::string::StringSliceAdditionalSpecFns;

verus! {

/// Correlation fields of a request: taken from its headers, plus the
/// fallback prompt hash.
#[derive(Debug, Default)]
pub struct ChainCorrelation {
    /// `x-chain-id`: id of the client-side chain.
    pub correlation_id: Option<String>,
    /// `x-chain-step`: step number within the chain.
    pub chain_step: Option<u32>,
    /// `x-chain-kind`: kind of task.
    pub chain_kind: Option<String>,
    /// `x-chain-cwd`: directory of the call (percent-decoded).
    pub chain_cwd: Option<String>,
    /// Fallback join key: hash of the last user message.
    pub prompt_hash: Option<String>,
}

/// Percent-decoding of bytes: `%` followed by two hex digits stands for the
/// byte they spell; every other byte stands for itself.
pub open spec fn percent_decode_bytes(b: Seq<u8>) -> Seq<u8>
    decreases b.len(),
{
    if b.len() == 0 {
        b
    } else if b[0] == 37 && b.len() >= 3 && hex_value(b[1]) is Some && hex_value(b[2]) is Some {
        seq![(hex_value(b[1]).unwrap() * 16 + hex_value(b[2]).unwrap()) as u8]
            + percent_decode_bytes(b.skip(3))
    } else {
        seq![b[0]] + percent_decode_bytes(b.skip(1))
    }
}

/// Minimal percent-decoding of `x-chain-cwd` (the client encodes it with
/// `encodeURIComponent`); the decoded bytes are read as UTF-8, invalid
/// sequences replaced.
pub fn percent_decode(s: &str) -> (r: String)
    ensures
        r@ == utf8_lossy(percent_decode_bytes(encode_utf8(s@))),
        !s@.contains('%') ==> r@ == s@,
        forall|t: Seq<char>| #[trigger] percent_encoding_of(encode_utf8(s@), encode_utf8(t)) ==> r@ == t,
{
    let bytes = s.as_bytes();
    let n = bytes.len();
    let mut out: Vec<u8> = Vec::new();
    let mut i: usize = 0;
    proof {
        assert(bytes@.skip(0) =~= bytes@);
        assert(out@ + percent_decode_bytes(bytes@) =~= percent_decode_bytes(bytes@));
    }
    while i < n
        invariant
            n == bytes@.len(),
            i <= n,
            out@ + percent_decode_bytes(bytes@.skip(i as int)) == percent_decode_bytes(bytes@),
        decreases n - i,
    {
        let ghost rest = bytes@.skip(i as int);
        let ghost before = out@;
        if bytes[i] == 37 && n - i > 2 {
            let h = hex_digit_value(bytes[i + 1]);
            let l = hex_digit_value(bytes[i + 2]);
            if h.is_some() && l.is_some() {
                let hv = h.unwrap();
                let lv = l.unwrap();
                out.push(hv * 16 + lv);
                proof {
                    assert(rest[1] == bytes@[i + 1]);
                    assert(rest[2] == bytes@[i + 2]);
                    assert(rest.skip(3) =~= bytes@.skip(i + 3));
                    assert(before + percent_decode_bytes(rest) =~= out@ + percent_decode_bytes(
                        bytes@.skip(i + 3),
                    ));
                }
                i = i + 3;
                continue;
            }
        }
        out.push(bytes[i]);
        proof {
            assert(rest[0] == bytes@[i as int]);
            if rest.len() >= 3 {
                assert(rest[1] == bytes@[i + 1]);
                assert(rest[2] == bytes@[i + 2]);
            }
            assert(rest.skip(1) =~= bytes@.skip(i + 1));
            assert(before + percent_decode_bytes(rest) =~= out@ + percent_decode_bytes(
                bytes@.skip(i + 1),
            ));
        }
        i = i + 1;
    }
    proof {
        assert(bytes@.skip(n as int) =~= Seq::<u8>::empty());
        assert(out@ =~= percent_decode_bytes(bytes@));
        if !s@.contains('%') {
            lemma_encode_no_percent(s@);
            lemma_percent_decode_identity(bytes@);
            vstd::utf8::encode_utf8_valid_utf8(s@);
            vstd::utf8::encode_utf8_decode_utf8(s@);
        }
    }
    let r = lossy_string(out.as_slice());
    proof {
        assert forall|t: Seq<char>| #[trigger] percent_encoding_of(encode_utf8(s@), encode_utf8(t)) implies r@ == t by {
            lemma_percent_decode_inverts(encode_utf8(s@), encode_utf8(t));
            vstd::utf8::encode_utf8_valid_utf8(t);
            vstd::utf8::encode_utf8_decode_utf8(t);
        }
    }
    r
}

/// Whether `e` is a percent-encoding of the bytes `b`: each byte of `b`, in
/// order, is written either as itself (unless it is `%`) or as `%`
/// followed by two hexadecimal digits of its value, in either letter case.
/// What `encodeURIComponent` makes of a text is one (it writes ASCII
/// letters, digits and `-_.!~*'()` as themselves and escapes the rest).
pub open spec fn percent_encoding_of(e: Seq<u8>, b: Seq<u8>) -> bool
    decreases b.len(),
{
    if b.len() == 0 {
        e.len() == 0
    } else {
        ||| b[0] != 37 && e.len() >= 1 && e[0] == b[0] && percent_encoding_of(e.skip(1), b.drop_first())
        ||| e.len() >= 3 && e[0] == 37 && hex_value(e[1]) == Some((b[0] / 16) as u8) && hex_value(e[2])
            == Some((b[0] % 16) as u8) && percent_encoding_of(e.skip(3), b.drop_first())
    }
}

/// Percent-decoding undoes every percent-encoding, with hex digits of
/// either case: in particular it undoes `encodeURIComponent`.
pub proof fn lemma_percent_decode_inverts(e: Seq<u8>, b: Seq<u8>)
    requires
        percent_encoding_of(e, b),
    ensures
        percent_decode_bytes(e) == b,
    decreases b.len(),
{
    if b.len() > 0 {
        let x = b[0];
        let rest = b.drop_first();
        if x != 37 && e.len() >= 1 && e[0] == x && percent_encoding_of(e.skip(1), rest) {
            lemma_percent_decode_inverts(e.skip(1), rest);
            assert(seq![x] + rest =~= b);
        } else {
            let h = (x / 16) as u8;
            let l = (x % 16) as u8;
            lemma_percent_decode_inverts(e.skip(3), rest);
            assert((h * 16 + l) as u8 == x);
            assert(seq![x] + rest =~= b);
        }
    }
}

/// The UTF-8 bytes of a character other than `%` hold no `%` byte: ASCII
/// characters are their own byte, and every byte of a longer encoding has
/// its high bit set.
proof fn lemma_scalar_no_percent(c: char)
    requires
        c != '%',
    ensures
        !encode_scalar(c as u32).contains(37u8),
{
    let v = c as u32;
    assert((v & 0x7F) as u8 == 37u8 ==> v == 37u32 || v > 0x7F) by (bit_vector);
    assert((0x80u8 | ((v & 0x3F) as u8)) != 37u8) by (bit_vector);
    assert((0x80u8 | (((v >> 6) & 0x3F) as u8)) != 37u8) by (bit_vector);
    assert((0x80u8 | (((v >> 12) & 0x3F) as u8)) != 37u8) by (bit_vector);
    assert((0xC0u8 | (((v >> 6) & 0x1F) as u8)) != 37u8) by (bit_vector);
    assert((0xE0u8 | (((v >> 12) & 0x0F) as u8)) != 37u8) by (bit_vector);
    assert((0xF0u8 | (((v >> 18) & 0x7) as u8)) != 37u8) by (bit_vector);
    let e = encode_scalar(v);
    assert forall|i: int| 0 <= i < e.len() implies e[i] != 37u8 by {}
}

/// A text without `%` has no `%` byte in its UTF-8 encoding.
proof fn lemma_encode_no_percent(s: Seq<char>)
    requires
        !s.contains('%'),
    ensures
        !encode_utf8(s).contains(37u8),
    decreases s.len(),
{
    if s.len() > 0 {
        assert(s[0] != '%');
        lemma_scalar_no_percent(s[0]);
        let t = s.drop_first();
        assert forall|i: int| 0 <= i < t.len() implies t[i] != '%' by {
            assert(t[i] == s[i + 1]);
        }
        lemma_encode_no_percent(t);
        let a = encode_scalar(s[0] as u32);
        let b = encode_utf8(t);
        assert forall|i: int| 0 <= i < (a + b).len() implies (a + b)[i] != 37u8 by {
            if i >= a.len() {
                assert((a + b)[i] == b[i - a.len()]);
            }
        }
    }
}

/// Percent-decoding leaves bytes without `%` as they are.
proof fn lemma_percent_decode_identity(b: Seq<u8>)
    requires
        !b.contains(37u8),
    ensures
        percent_decode_bytes(b) == b,
    decreases b.len(),
{
    if b.len() > 0 {
        assert(b[0] != 37u8);
        let t = b.skip(1);
        assert forall|i: int| 0 <= i < t.len() implies t[i] != 37u8 by {
            assert(t[i] == b[i + 1]);
        }
        lemma_percent_decode_identity(t);
        assert(seq![b[0]] + t =~= b);
    }
}

/// SHA-256 of `data` (as `sha2::Sha256` computes it).
pub uninterp spec fn sha256(data: Seq<u8>) -> Seq<u8>;

/// `sha2::Sha256::digest`. Claims that the digest is the named SHA-256 of
/// the input and, as its output type fixes, 32 bytes long.
#[verifier::external_body]
fn sha256_digest(data: &[u8]) -> (r: Vec<u8>)
    ensures
        r@ == sha256(data@),
        r@.len() == 32,
{
    <sha2::Sha256 as sha2::Digest>::digest(data).to_vec()
}

/// Concatenated texts of the `type: "text"` parts of a content list.
pub open spec fn joined_part_texts(parts: Seq<JsonView>) -> Seq<char>
    decreases parts.len(),
{
    if parts.len() == 0 {
        Seq::empty()
    } else {
        joined_part_texts(parts.drop_last()) + match part_text(parts.last()) {
            Some(t) => t,
            None => Seq::empty(),
        }
    }
}

/// The text of a message content: a string as it is; for a list of parts,
/// the concatenation of the texts of its text parts.
pub open spec fn message_text_spec(content: JsonView) -> Option<Seq<char>> {
    match content {
        JsonView::Str(s) => Some(s),
        JsonView::Array(parts) => Some(joined_part_texts(parts)),
        _ => None,
    }
}

/// The text of a message content (see [`message_text_spec`]).
pub fn message_text(content: &Json) -> (r: Option<String>)
    ensures
        match r {
            Some(t) => message_text_spec(content@) == Some(t@),
            None => message_text_spec(content@) is None,
        },
{
    match content {
        Json::Str(s) => Some(s.clone()),
        Json::Array(parts) => {
            let ghost ps = content@->Array_0;
            proof {
                assert(ps =~= Seq::new(parts@.len(), |i: int| parts@[i]@));
            }
            let mut out = String::new();
            let mut k: usize = 0;
            while k < parts.len()
                invariant
                    ps == Seq::new(parts@.len(), |i: int| parts@[i]@),
                    k <= parts@.len(),
                    out@ == joined_part_texts(ps.take(k as int)),
                decreases parts@.len() - k,
            {
                let p = &parts[k];
                proof {
                    assert(ps.take(k + 1).drop_last() =~= ps.take(k as int));
                    assert(ps.take(k + 1).last() == p@);
                }
                if p.field_str_is("type", "text") {
                    match p.get("text") {
                        Some(t) => match t.as_str() {
                            Some(text) => {
                                out.append(text.as_str());
                            },
                            None => {},
                        },
                        None => {},
                    }
                }
                proof {
                    assert(out@ =~= joined_part_texts(ps.take(k + 1)));
                }
                k = k + 1;
            }
            proof {
                assert(ps.take(parts@.len() as int) =~= ps);
            }
            Some(out)
        },
        _ => None,
    }
}

/// Index of the last message whose role is `user`, or -1.
pub open spec fn last_user_index(msgs: Seq<JsonView>) -> int
    decreases msgs.len(),
{
    if msgs.len() == 0 {
        -1
    } else if str_field(msgs.last(), "role"@) == Some("user"@) {
        msgs.len() - 1
    } else {
        last_user_index(msgs.drop_last())
    }
}

proof fn lemma_last_user_bound(msgs: Seq<JsonView>)
    ensures
        -1 <= last_user_index(msgs) < msgs.len(),
    decreases msgs.len(),
{
    if msgs.len() > 0 {
        lemma_last_user_bound(msgs.drop_last());
    }
}

/// Position of the last message whose role is `user`.
fn last_user_pos(messages: &Vec<Json>) -> (r: Option<usize>)
    ensures
        match r {
            Some(i) => last_user_index(Seq::new(messages@.len(), |j: int| messages@[j]@)) == i
                && i < messages@.len(),
            None => last_user_index(Seq::new(messages@.len(), |j: int| messages@[j]@)) < 0,
        },
{
    let ghost msgs = Seq::new(messages@.len(), |i: int| messages@[i]@);
    let mut k: usize = messages.len();
    proof {
        assert(msgs.take(k as int) =~= msgs);
    }
    while k > 0
        invariant
            msgs == Seq::new(messages@.len(), |i: int| messages@[i]@),
            k <= messages@.len(),
            last_user_index(msgs) == last_user_index(msgs.take(k as int)),
        decreases k,
    {
        proof {
            assert(msgs.take(k as int).last() == messages@[k - 1]@);
            assert(msgs.take(k as int).drop_last() =~= msgs.take(k - 1));
        }
        if messages[k - 1].field_str_is("role", "user") {
            return Some(k - 1);
        }
        k = k - 1;
    }
    proof {
        assert(msgs.take(0) =~= Seq::<JsonView>::empty());
    }
    None
}

/// The text of the last user message of a request body: its string
/// content, or the joined texts of its text parts; `None` without a
/// `messages` array, without a user message, or without a usable content.
pub open spec fn last_user_text(body: JsonView) -> Option<Seq<char>> {
    match items_of(get_field(body, "messages"@)) {
        None => None,
        Some(msgs) => {
            let i = last_user_index(msgs);
            if i < 0 {
                None
            } else {
                match get_field(msgs[i], "content"@) {
                    None => None,
                    Some(c) => message_text_spec(c),
                }
            }
        },
    }
}

/// The hash of a prompt text: the first 16 lower-case hex digits of the
/// SHA-256 of its trimmed UTF-8 bytes.
pub open spec fn text_hash(t: Seq<char>) -> Seq<char> {
    hex_lower(sha256(encode_utf8(trim_spec(t)))).take(16)
}

/// The prompt hash of a request body: the hash of the text of its last
/// user message.
pub open spec fn prompt_hash_spec(body: JsonView) -> Option<Seq<char>> {
    match last_user_text(body) {
        Some(t) => Some(text_hash(t)),
        None => None,
    }
}

/// A lower-case hexadecimal digit.
pub open spec fn is_lower_hex_digit(c: char) -> bool {
    ('0' <= c && c <= '9') || ('a' <= c && c <= 'f')
}

/// The prompt hash depends on nothing but the trimmed text of the last
/// user message: two bodies whose last user texts agree once trimmed have
/// the same hash, and a body without such a text has none.
pub proof fn lemma_prompt_hash_by_text(b1: JsonView, b2: JsonView)
    ensures
        last_user_text(b1) is None ==> prompt_hash_spec(b1) is None,
        (last_user_text(b1) matches Some(t1) && last_user_text(b2) matches Some(t2) && trim_spec(t1)
            == trim_spec(t2)) ==> prompt_hash_spec(b1) == prompt_hash_spec(b2),
{
}

/// When the last message is a user message with text content `t`, the
/// prompt hash is the first 16 lower-case hex digits of the SHA-256 of the
/// trimmed `t`.
pub proof fn lemma_prompt_hash_last_message(body: JsonView, msgs: Seq<JsonView>, t: Seq<char>)
    requires
        items_of(get_field(body, "messages"@)) == Some(msgs),
        msgs.len() > 0,
        str_field(msgs.last(), "role"@) == Some("user"@),
        get_field(msgs.last(), "content"@) == Some(JsonView::Str(t)),
    ensures
        prompt_hash_spec(body) == Some(hex_lower(sha256(encode_utf8(trim_spec(t)))).take(16)),
{
    assert(msgs[msgs.len() - 1] == msgs.last());
}

/// Messages after the last user message do not change the prompt hash:
/// appending a message that is not a user message leaves it as it was.
pub proof fn lemma_prompt_hash_ignores_later(body: JsonView, msgs: Seq<JsonView>, m: JsonView)
    requires
        items_of(get_field(body, "messages"@)) == Some(msgs),
        str_field(m, "role"@) != Some("user"@),
    ensures
        prompt_hash_spec(set_field(body, "messages"@, JsonView::Array(msgs.push(m)))) == prompt_hash_spec(body),
{
    let longer = msgs.push(m);
    lemma_set_field_get(body, "messages"@, JsonView::Array(longer), "messages"@);
    assert(longer.drop_last() =~= msgs);
    assert(longer.last() == m);
    lemma_last_user_bound(msgs);
    let i = last_user_index(msgs);
    if i >= 0 {
        assert(longer[i] == msgs[i]);
    }
}

proof fn lemma_hex_lower_digits(b: Seq<u8>)
    ensures
        forall|i: int| 0 <= i < hex_lower(b).len() ==> is_lower_hex_digit(#[trigger] hex_lower(b)[i]),
{
    assert forall|i: int| 0 <= i < hex_lower(b).len() implies is_lower_hex_digit(#[trigger] hex_lower(b)[i]) by {
        let x = b[i / 2];
        let v: int = if i % 2 == 0 { (x / 16) as int } else { (x % 16) as int };
        assert(0 <= v < 16);
        assert(hex_lower(b)[i] == hex_char(v));
        if v < 10 {
            assert(((48 + v) as u8) as char == (48 + v) as char);
        } else {
            assert(((87 + v) as u8) as char == (87 + v) as char);
        }
    }
}

/// Hash of the prompt, by the shared contract (see the module header).
pub fn prompt_hash(request_body: &Json) -> (r: Option<String>)
    ensures
        match r {
            Some(h) => prompt_hash_spec(request_body@) == Some(h@),
            None => prompt_hash_spec(request_body@) is None,
        },
        r matches Some(h) ==> h@.len() == 16 && forall|i: int|
            0 <= i < 16 ==> is_lower_hex_digit(#[trigger] h@[i]),
{
    let messages = match request_body.get("messages") {
        Some(m) => match m.as_array() {
            Some(a) => a,
            None => return None,
        },
        None => return None,
    };
    let idx = match last_user_pos(messages) {
        Some(i) => i,
        None => return None,
    };
    let content = match messages[idx].get("content") {
        Some(c) => c,
        None => return None,
    };
    let text = match message_text(content) {
        Some(t) => t,
        None => return None,
    };
    let trimmed = trim(text.as_str());
    let digest = sha256_digest(trimmed.as_str().as_bytes());
    let h = hex_prefix(digest.as_slice(), 8);
    proof {
        lemma_hex_lower_digits(digest@);
    }
    Some(h)
}

/// View of an optional string.
pub open spec fn opt_view(o: Option<String>) -> Option<Seq<char>> {
    match o {
        Some(s) => Some(s@),
        None => None,
    }
}

/// Request headers as the library reads them: each header's name (in the
/// lower case in which HTTP headers are stored) and its value where that
/// value is visible ASCII text, in the order of the header map.
pub open spec fn headers_view(h: Seq<(String, Option<String>)>) -> Seq<(Seq<char>, Option<Seq<char>>)> {
    Seq::new(h.len(), |i: int| (h[i].0@, opt_view(h[i].1)))
}

/// Text value of the first header named `name` (`HeaderMap::get`).
pub open spec fn header_value_spec(h: Seq<(Seq<char>, Option<Seq<char>>)>, name: Seq<char>) -> Option<
    Seq<char>,
>
    decreases h.len(),
{
    if h.len() == 0 {
        None
    } else if h[0].0 == name {
        h[0].1
    } else {
        header_value_spec(h.drop_first(), name)
    }
}

/// Text value of the first header named `name`.
pub fn header_value(headers: &Vec<(String, Option<String>)>, name: &str) -> (r: Option<String>)
    ensures
        opt_view(r) == header_value_spec(headers_view(headers@), name@),
{
    let ghost hv = headers_view(headers@);
    let mut k: usize = 0;
    proof {
        assert(hv.skip(0) =~= hv);
    }
    while k < headers.len()
        invariant
            hv == headers_view(headers@),
            k <= headers@.len(),
            header_value_spec(hv, name@) == header_value_spec(hv.skip(k as int), name@),
        decreases headers@.len() - k,
    {
        proof {
            assert(hv.skip(k as int)[0] == (headers@[k as int].0@, opt_view(headers@[k as int].1)));
            assert(hv.skip(k as int).drop_first() =~= hv.skip(k + 1));
        }
        if crate::text::str_eq(headers[k].0.as_str(), name) {
            return match &headers[k].1 {
                Some(v) => Some(v.clone()),
                None => None,
            };
        }
        k = k + 1;
    }
    None
}

/// Percent-decoding as text (see [`percent_decode`]).
pub open spec fn percent_decode_spec(s: Seq<char>) -> Seq<char> {
    utf8_lossy(percent_decode_bytes(encode_utf8(s)))
}

/// Whether `r` holds the correlation of a request with headers `h` and
/// parsed body `body`: the `x-chain-*` header values (the step read as a
/// `u32`, the directory percent-decoded) and the prompt hash of the body.
pub open spec fn correlation_of(
    r: ChainCorrelation,
    h: Seq<(Seq<char>, Option<Seq<char>>)>,
    body: Option<JsonView>,
) -> bool {
    &&& opt_view(r.correlation_id) == header_value_spec(h, "x-chain-id"@)
    &&& r.chain_step == match header_value_spec(h, "x-chain-step"@) {
        Some(s) => match parse_unsigned_spec(s, u32::MAX as nat) {
            Some(v) => Some(v as u32),
            None => None,
        },
        None => None,
    }
    &&& opt_view(r.chain_kind) == header_value_spec(h, "x-chain-kind"@)
    &&& opt_view(r.chain_cwd) == match header_value_spec(h, "x-chain-cwd"@) {
        Some(s) => Some(percent_decode_spec(s)),
        None => None,
    }
    &&& opt_view(r.prompt_hash) == match body {
        Some(b) => prompt_hash_spec(b),
        None => None,
    }
}

/// Reads the correlation headers, and hashes the prompt of the body when
/// there is one.
pub fn extract_correlation(headers: &Vec<(String, Option<String>)>, request_body: Option<&Json>) -> (r:
    ChainCorrelation)
    ensures
        correlation_of(
            r,
            headers_view(headers@),
            match request_body {
                Some(b) => Some(b@),
                None => None,
            },
        ),
{
    let chain_step = match header_value(headers, "x-chain-step") {
        Some(s) => match parse_unsigned(s.as_str(), 4294967295u64) {
            Some(v) => Some(v as u32),
            None => None,
        },
        None => None,
    };
    let chain_cwd = match header_value(headers, "x-chain-cwd") {
        Some(s) => Some(percent_decode(s.as_str())),
        None => None,
    };
    let prompt_hash = match request_body {
        Some(b) => prompt_hash(b),
        None => None,
    };
    ChainCorrelation {
        correlation_id: header_value(headers, "x-chain-id"),
        chain_step,
        chain_kind: header_value(headers, "x-chain-kind"),
        chain_cwd,
        prompt_hash,
    }
}

} // verus!
