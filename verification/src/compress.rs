//! Compression of a chat-completion request body before it is forwarded:
//! pretty-printed JSON embedded in message text is minified, and large old
//! text blocks are cut in the middle.

use vstd::prelude::*;
use crate::json::{
    get_field, items_of, json_compact_text, lemma_set_field_get, set_field, str_field, value_model,
    value_to_string, Json, JsonView,
};
use crate::text::{
    append_chars, byte_len, char_utf8_len, decimal, push_decimal, contains_char, lemma_encode_concat, lemma_prefix_len_bound, lemma_utf8_len_step,
    push_char, split_at_chars, to_chars, utf8_len,
};
use vstd::string::StrSliceExecFns;

verus! {

/// How many trailing messages are protected from truncation.
pub const PROTECTED_TAIL_MESSAGES: usize = 2;
/// Size of a text (in characters) above which it may be truncated.
pub const TRUNCATE_THRESHOLD: usize = 4000;
/// Characters kept from the start of a truncated text.
pub const TRUNCATE_HEAD: usize = 1500;
/// Characters kept from the end of a truncated text.
pub const TRUNCATE_TAIL: usize = 500;
/// Minimal size (in UTF-8 bytes) of an embedded JSON block worth minifying.
pub const MIN_JSON_MINIFY_LEN: usize = 40;
/// Raw request size (in bytes) above which the system message is no longer
/// protected from truncation.
pub const SYSTEM_TRUNCATION_SIZE_THRESHOLD: usize = 120_000;

/// The text of the first value that serde_json's stream reader
/// (`Deserializer::from_str(..).into_iter::<Value>()`, first `next()`) takes
/// from `text`, leading whitespace included, with the model of that value;
/// `None` where that first item is missing or an error.
pub uninterp spec fn json_stream_first(text: Seq<char>) -> Option<(Seq<char>, JsonView)>;

/// Reads the first JSON value from `text` with serde_json's stream reader
/// and splits `text` at the byte offset where the reader stopped. Claims
/// that the two parts make up `text`, that the consumed part is not empty,
/// and that the outcome is the named first value.
#[verifier::external_body]
fn first_json_value(text: &str) -> (r: Option<(&str, &str, serde_json::Value)>)
    ensures
        match r {
            Some((raw, rest, v)) => {
                &&& raw@ + rest@ == text@
                &&& raw@.len() > 0
                &&& json_stream_first(text@) == Some((raw@, value_model(v)))
            },
            None => json_stream_first(text@) is None,
        },
{
    let mut stream = serde_json::Deserializer::from_str(text).into_iter::<serde_json::Value>();
    match stream.next() {
        Some(Ok(v)) => {
            let (raw, rest) = text.split_at(stream.byte_offset());
            Some((raw, rest, v))
        },
        _ => None,
    }
}

pub open spec fn is_open_bracket(c: char) -> bool {
    c == '{' || c == '['
}

/// Whether an embedded JSON block that takes up the characters `raw` of the
/// text and has the model `m` is replaced by its compact form: the block is
/// at least `MIN_JSON_MINIFY_LEN` bytes, spans lines, and its compact form
/// is shorter in bytes.
pub open spec fn keeps_minified(raw: Seq<char>, m: JsonView) -> bool {
    &&& utf8_len(raw) >= MIN_JSON_MINIFY_LEN
    &&& raw.contains('\n')
    &&& json_compact_text(m) is Some
    &&& utf8_len(json_compact_text(m).unwrap()) < utf8_len(raw)
}

/// One step of the minification at the start of a non-empty `t`: the text
/// it produces, how many characters of `t` it consumes, and whether it
/// replaced an embedded JSON block by its compact form.
pub open spec fn minify_step(t: Seq<char>) -> (Seq<char>, int, bool) {
    if t.len() > 0 && is_open_bracket(t[0]) {
        match json_stream_first(t) {
            Some((raw, m)) => {
                if 0 < raw.len() <= t.len() {
                    if keeps_minified(t.take(raw.len() as int), m) {
                        (json_compact_text(m).unwrap(), raw.len() as int, true)
                    } else {
                        (t.take(raw.len() as int), raw.len() as int, false)
                    }
                } else {
                    (seq![t[0]], 1, false)
                }
            },
            None => (seq![t[0]], 1, false),
        }
    } else {
        (t.take(1), 1, false)
    }
}

/// Embedded JSON minification: the text with each multi-line embedded JSON
/// block of at least `MIN_JSON_MINIFY_LEN` bytes replaced by its compact
/// form where that is shorter, and whether anything was replaced. Scanning
/// goes left to right; a `{` or `[` that does not start a JSON value is
/// kept and scanning resumes after it.
pub open spec fn minify_spec(t: Seq<char>) -> (Seq<char>, bool)
    decreases t.len(),
{
    if t.len() == 0 {
        (t, false)
    } else {
        let step = minify_step(t);
        if 1 <= step.1 <= t.len() {
            let rest = minify_spec(t.skip(step.1));
            (step.0 + rest.0, step.2 || rest.1)
        } else {
            (t, false)
        }
    }
}

/// Performs `minify_step` at character `i` of `text`, appending its output
/// to `result`. Returns the characters and bytes consumed and whether a
/// block was replaced.
fn minify_step_at(text: &str, chars: &Vec<char>, i: usize, bi: usize, result: &mut String) -> (r: (
    usize,
    usize,
    bool,
))
    requires
        chars@ == text@,
        i < text@.len(),
        bi == utf8_len(text@.take(i as int)),
        utf8_len(text@) <= usize::MAX,
    ensures
        ({
            let step = minify_step(text@.skip(i as int));
            &&& final(result)@ == old(result)@ + step.0
            &&& r.0 == step.1
            &&& r.2 == step.2
            &&& 1 <= r.0 <= text@.len() - i
            &&& bi + r.1 == utf8_len(text@.take(i + r.0))
            &&& bi + r.1 <= utf8_len(text@)
        }),
{
    let n = chars.len();
    let c = chars[i];
    let ghost t = text@.skip(i as int);
    proof {
        lemma_prefix_len_bound(text@);
        lemma_utf8_len_step(text@, i as int);
        assert(t[0] == c);
        assert(t.take(1) =~= seq![c]);
    }
    if c != '{' && c != '[' {
        push_char(result, c);
        return (1, char_utf8_len(c), false);
    }
    let (_head, cand) = split_at_chars(text, i, bi);
    match first_json_value(cand) {
        Some((raw, _rest, v)) => {
            let ghost raw_v = raw@;
            let raw_chars = raw.unicode_len();
            let raw_bytes = byte_len(raw);
            proof {
                assert(cand@ == t);
                assert(raw_v.len() <= t.len());
                assert(cand@.take(raw_v.len() as int) =~= raw_v);
                assert(text@.take(i + raw_v.len()) =~= text@.take(i as int) + raw_v);
                lemma_encode_concat(text@.take(i as int), raw_v);
                assert(raw_chars == raw_v.len());
                assert(text@.subrange(i as int, i + raw_chars) =~= raw_v);
                assert(utf8_len(text@.take(i + raw_chars)) <= utf8_len(text@));
                assert(utf8_len(raw_v) <= usize::MAX);
                assert(raw_bytes == utf8_len(raw_v));
            }
            let has_newline = contains_char(chars, i, i + raw_chars, '\n');
            if raw_bytes >= MIN_JSON_MINIFY_LEN && has_newline {
                match value_to_string(&v) {
                    Some(minified) => {
                        if byte_len(minified.as_str()) < raw_bytes {
                            assert(keeps_minified(t.take(raw_v.len() as int), value_model(v)));
                            result.append(minified.as_str());
                            return (raw_chars, raw_bytes, true);
                        }
                    },
                    None => {},
                }
            }
            append_chars(result, chars, i, i + raw_chars);
            (raw_chars, raw_bytes, false)
        },
        None => {
            push_char(result, c);
            (1, char_utf8_len(c), false)
        },
    }
}

/// Replaces each multi-line JSON value embedded in `text` (starting at a
/// `{` or `[`, at least `MIN_JSON_MINIFY_LEN` bytes long) by its compact
/// serde_json form where that is shorter; the rest of the text is kept.
/// Returns the new text and whether anything was replaced.
pub fn minify_embedded_json(text: &str) -> (r: (String, bool))
    ensures
        (r.0@, r.1) == minify_spec(text@),
        !r.1 ==> r.0@ == text@,
        r.1 ==> utf8_len(r.0@) < utf8_len(text@),
{
    let chars = to_chars(text);
    let n = chars.len();
    let total = byte_len(text);
    let mut result = String::new();
    let mut changed = false;
    let mut i: usize = 0;
    let mut bi: usize = 0;
    proof {
        assert(text@.skip(0) =~= text@);
        assert(text@.take(0) =~= Seq::<char>::empty());
        assert(result@ + text@ =~= text@);
    }
    while i < n
        invariant
            chars@ == text@,
            n == text@.len(),
            total == utf8_len(text@),
            i <= n,
            bi == utf8_len(text@.take(i as int)),
            minify_spec(text@).0 == result@ + minify_spec(text@.skip(i as int)).0,
            minify_spec(text@).1 == (changed || minify_spec(text@.skip(i as int)).1),
        decreases n - i,
    {
        let ghost before = result@;
        let ghost t = text@.skip(i as int);
        let (used, bytes, replaced) = minify_step_at(text, &chars, i, bi, &mut result);
        proof {
            let step = minify_step(t);
            assert(t.skip(used as int) =~= text@.skip(i + used));
            let rest = minify_spec(text@.skip(i + used));
            assert(minify_spec(t).0 == step.0 + rest.0);
            assert(before + (step.0 + rest.0) =~= result@ + rest.0);
        }
        changed = changed || replaced;
        i = i + used;
        bi = bi + bytes;
    }
    proof {
        assert(text@.skip(n as int) =~= Seq::<char>::empty());
        assert(result@ + Seq::<char>::empty() =~= result@);
        lemma_minify_shrinks(text@);
        if !changed {
            lemma_minify_unchanged(text@);
        }
    }
    (result, changed)
}

/// One step that replaces nothing gives back the characters it consumes.
proof fn lemma_minify_step_copies(t: Seq<char>)
    requires
        t.len() > 0,
        !minify_step(t).2,
    ensures
        minify_step(t).0 == t.take(minify_step(t).1),
{
    if is_open_bracket(t[0]) {
        match json_stream_first(t) {
            Some((raw, m)) => {
                if !(0 < raw.len() <= t.len()) {
                    assert(seq![t[0]] =~= t.take(1));
                }
            },
            None => {
                assert(seq![t[0]] =~= t.take(1));
            },
        }
    }
}

/// Minification that reports no replacement leaves the text as it is.
pub proof fn lemma_minify_unchanged(t: Seq<char>)
    requires
        !minify_spec(t).1,
    ensures
        minify_spec(t).0 == t,
    decreases t.len(),
{
    if t.len() > 0 {
        let step = minify_step(t);
        if 1 <= step.1 <= t.len() {
            lemma_minify_unchanged(t.skip(step.1));
            lemma_minify_step_copies(t);
            assert(t.take(step.1) + t.skip(step.1) =~= t);
        }
    }
}

/// Minification never makes a text longer in bytes, and makes it strictly
/// shorter when it replaces a block.
pub proof fn lemma_minify_shrinks(t: Seq<char>)
    ensures
        utf8_len(minify_spec(t).0) <= utf8_len(t),
        minify_spec(t).1 ==> utf8_len(minify_spec(t).0) < utf8_len(t),
    decreases t.len(),
{
    if t.len() > 0 {
        let step = minify_step(t);
        if 1 <= step.1 <= t.len() {
            let rest = t.skip(step.1);
            lemma_minify_shrinks(rest);
            if !step.2 {
                lemma_minify_step_copies(t);
            }
            assert(t.take(step.1) + rest =~= t);
            lemma_encode_concat(t.take(step.1), rest);
            lemma_encode_concat(step.0, minify_spec(rest).0);
        }
    }
}

/// A text without `{` or `[` is left as it is, with nothing replaced.
pub proof fn lemma_minify_no_brackets(t: Seq<char>)
    requires
        forall|i: int| 0 <= i < t.len() ==> !is_open_bracket(#[trigger] t[i]),
    ensures
        minify_spec(t) == (t, false),
    decreases t.len(),
{
    if t.len() > 0 {
        let rest = t.skip(1);
        assert forall|i: int| 0 <= i < rest.len() implies !is_open_bracket(#[trigger] rest[i]) by {
            assert(rest[i] == t[i + 1]);
        }
        lemma_minify_no_brackets(rest);
        assert(t.take(1) + rest =~= t);
    }
}

/// The marker that stands for `dropped` characters cut out of a text.
pub open spec fn truncation_marker(dropped: nat) -> Seq<char> {
    "\n...[truncated "@ + decimal(dropped) + " chars]...\n"@
}

/// A text longer than `TRUNCATE_HEAD + TRUNCATE_TAIL` characters keeps its
/// first `TRUNCATE_HEAD` and last `TRUNCATE_TAIL` characters, with a marker
/// between them that counts the characters cut out; a shorter text is kept.
pub open spec fn truncate_spec(t: Seq<char>) -> Seq<char> {
    if t.len() <= TRUNCATE_HEAD + TRUNCATE_TAIL {
        t
    } else {
        t.take(TRUNCATE_HEAD as int) + truncation_marker(
            (t.len() - TRUNCATE_HEAD - TRUNCATE_TAIL) as nat,
        ) + t.skip(t.len() - TRUNCATE_TAIL)
    }
}

/// Cuts the middle out of a long text, counting characters (not bytes).
pub fn truncate_middle(text: &str) -> (r: String)
    ensures
        r@ == truncate_spec(text@),
{
    let chars = to_chars(text);
    let n = chars.len();
    if n <= TRUNCATE_HEAD + TRUNCATE_TAIL {
        return text.to_owned();
    }
    let mut out = String::new();
    append_chars(&mut out, &chars, 0, TRUNCATE_HEAD);
    out.append("\n...[truncated ");
    push_decimal(&mut out, (n - TRUNCATE_HEAD - TRUNCATE_TAIL) as u64);
    out.append(" chars]...\n");
    append_chars(&mut out, &chars, n - TRUNCATE_TAIL, n);
    proof {
        assert(chars@.subrange(0, TRUNCATE_HEAD as int) =~= text@.take(TRUNCATE_HEAD as int));
        assert(chars@.subrange(n - TRUNCATE_TAIL, n as int) =~= text@.skip(n - TRUNCATE_TAIL));
        assert(out@ =~= truncate_spec(text@));
    }
    out
}

/// What happens to one text: minification, then truncation when the text
/// is not protected and its minified form is over `TRUNCATE_THRESHOLD`
/// characters. The flag tells whether the text changed.
pub open spec fn compress_text_spec(t: Seq<char>, protected: bool) -> (Seq<char>, bool) {
    let m = minify_spec(t);
    if protected || m.0.len() <= TRUNCATE_THRESHOLD {
        m
    } else {
        (truncate_spec(m.0), true)
    }
}

/// Compresses one text (see [`compress_text_spec`]).
pub fn compress_text(text: &str, protected: bool) -> (r: (String, bool))
    ensures
        (r.0@, r.1) == compress_text_spec(text@, protected),
{
    let (minified, changed) = minify_embedded_json(text);
    if protected || minified.as_str().unicode_len() <= TRUNCATE_THRESHOLD {
        return (minified, changed);
    }
    (truncate_middle(minified.as_str()), true)
}

/// A message that carries a tool or function call, or is the result of
/// one: it is forwarded byte-exact.
pub open spec fn has_tool_payload(m: JsonView) -> bool {
    ||| get_field(m, "tool_calls"@) is Some
    ||| get_field(m, "function_call"@) is Some
    ||| str_field(m, "role"@) == Some("tool"@)
}

/// Whether a message carries a tool or function call or is a tool result.
pub fn has_tool_payload_exec(message: &Json) -> (r: bool)
    ensures
        r == has_tool_payload(message@),
{
    message.get("tool_calls").is_some() || message.get("function_call").is_some()
        || message.field_str_is("role", "tool")
}

/// The text of a `{"type": "text", "text": ...}` part.
pub open spec fn part_text(p: JsonView) -> Option<Seq<char>> {
    if str_field(p, "type"@) == Some("text"@) {
        str_field(p, "text"@)
    } else {
        None
    }
}

/// One part of a multi-modal content: a text part with its text compressed,
/// and whether it changed; other parts are kept.
pub open spec fn compress_part_spec(p: JsonView, protected: bool) -> (JsonView, bool) {
    match part_text(p) {
        Some(t) => {
            let c = compress_text_spec(t, protected);
            if c.1 {
                (set_field(p, "text"@, JsonView::Str(c.0)), true)
            } else {
                (p, false)
            }
        },
        None => (p, false),
    }
}

/// Multi-modal content: each part compressed, and whether any changed.
pub open spec fn compress_parts_spec(parts: Seq<JsonView>, protected: bool) -> (
    Seq<JsonView>,
    bool,
) {
    (
        Seq::new(parts.len(), |i: int| compress_part_spec(parts[i], protected).0),
        exists|i: int| 0 <= i < parts.len() && #[trigger] compress_part_spec(parts[i], protected).1,
    )
}

/// Compresses the text parts of a multi-modal content; other parts are
/// copied unchanged.
pub fn compress_parts(parts: &Vec<Json>, protected: bool) -> (r: (Json, bool))
    ensures
        r.0@ == JsonView::Array(
            compress_parts_spec(Seq::new(parts@.len(), |i: int| parts@[i]@), protected).0,
        ),
        r.1 == compress_parts_spec(Seq::new(parts@.len(), |i: int| parts@[i]@), protected).1,
{
    let ghost src = Seq::new(parts@.len(), |i: int| parts@[i]@);
    let mut changed = false;
    let mut out: Vec<Json> = Vec::new();
    let mut k: usize = 0;
    while k < parts.len()
        invariant
            src == Seq::new(parts@.len(), |i: int| parts@[i]@),
            k <= parts@.len(),
            out@.len() == k,
            forall|j: int| 0 <= j < k ==> out@[j]@ == compress_part_spec(src[j], protected).0,
            changed == exists|j: int| 0 <= j < k && #[trigger] compress_part_spec(src[j], protected).1,
        decreases parts@.len() - k,
    {
        let part = &parts[k];
        let mut done = false;
        if part.field_str_is("type", "text") {
            match part.get("text") {
                Some(t) => match t.as_str() {
                    Some(text) => {
                        let (new_text, c) = compress_text(text.as_str(), protected);
                        if c {
                            let pos = part.member_pos("text").unwrap();
                            let new_part = part.deep_clone().with_member("text", pos, Json::Str(new_text));
                            out.push(new_part);
                            changed = true;
                            done = true;
                        }
                    },
                    None => {},
                },
                None => {},
            }
        }
        if !done {
            out.push(part.deep_clone());
        }
        proof {
            assert(src[k as int] == parts@[k as int]@);
            assert(compress_part_spec(src[k as int], protected).1 == done);
        }
        k = k + 1;
    }
    let r = Json::Array(out);
    proof {
        assert(r@->Array_0 =~= compress_parts_spec(src, protected).0);
    }
    (r, changed)
}

/// A message with its `content` compressed, or `None` where nothing
/// changed (or the content is neither a string nor a list of parts).
pub open spec fn compress_message_spec(m: JsonView, protected: bool) -> Option<JsonView> {
    match get_field(m, "content"@) {
        Some(JsonView::Str(s)) => {
            let c = compress_text_spec(s, protected);
            if c.1 {
                Some(set_field(m, "content"@, JsonView::Str(c.0)))
            } else {
                None
            }
        },
        Some(JsonView::Array(parts)) => {
            let c = compress_parts_spec(parts, protected);
            if c.1 {
                Some(set_field(m, "content"@, JsonView::Array(c.0)))
            } else {
                None
            }
        },
        _ => None,
    }
}

/// Compresses the `content` of one message (see [`compress_message_spec`]).
pub fn compress_message(message: &Json, protected: bool) -> (r: Option<Json>)
    ensures
        match r {
            Some(j) => compress_message_spec(message@, protected) == Some(j@),
            None => compress_message_spec(message@, protected) is None,
        },
{
    let content = match message.get("content") {
        Some(c) => c,
        None => return None,
    };
    let (new_content, changed) = match content {
        Json::Str(s) => {
            let (text, c) = compress_text(s.as_str(), protected);
            (Json::Str(text), c)
        },
        Json::Array(parts) => {
            proof {
                assert(content@->Array_0 =~= Seq::new(parts@.len(), |i: int| parts@[i]@));
            }
            compress_parts(parts, protected)
        },
        _ => return None,
    };
    if !changed {
        return None;
    }
    let pos = message.member_pos("content").unwrap();
    Some(message.deep_clone().with_member("content", pos, new_content))
}

/// Index from which messages are protected by position.
pub open spec fn first_protected_index(n: int) -> int {
    if n >= PROTECTED_TAIL_MESSAGES {
        n - PROTECTED_TAIL_MESSAGES
    } else {
        0
    }
}

/// Whether message `i` is protected from truncation: a `system` message
/// while the raw request is at most `SYSTEM_TRUNCATION_SIZE_THRESHOLD`
/// bytes, any other message when it is among the last
/// `PROTECTED_TAIL_MESSAGES`.
pub open spec fn message_protected(messages: Seq<JsonView>, i: int, original_size: nat) -> bool {
    if str_field(messages[i], "role"@) == Some("system"@) {
        original_size <= SYSTEM_TRUNCATION_SIZE_THRESHOLD
    } else {
        i >= first_protected_index(messages.len() as int)
    }
}

/// The compressed form of message `i`, or `None` where it stays as it is.
pub open spec fn compressed_message(messages: Seq<JsonView>, i: int, original_size: nat) -> Option<
    JsonView,
> {
    if has_tool_payload(messages[i]) {
        None
    } else {
        compress_message_spec(messages[i], message_protected(messages, i, original_size))
    }
}

/// The request body with its messages compressed; `None` where the body
/// has no `messages` array, has a `response_format`, or no message changed.
pub open spec fn compress_body_spec(body: JsonView, original_size: nat) -> Option<JsonView> {
    match items_of(get_field(body, "messages"@)) {
        None => None,
        Some(msgs) => {
            if get_field(body, "response_format"@) is Some {
                None
            } else if exists|i: int|
                0 <= i < msgs.len() && #[trigger] compressed_message(msgs, i, original_size) is Some {
                Some(
                    set_field(
                        body,
                        "messages"@,
                        JsonView::Array(
                            Seq::new(
                                msgs.len(),
                                |i: int|
                                    match compressed_message(msgs, i, original_size) {
                                        Some(c) => c,
                                        None => msgs[i],
                                    },
                            ),
                        ),
                    ),
                )
            } else {
                None
            }
        },
    }
}

/// Tries to compress a chat-completion request body; `original_size` is the
/// size of the raw body in bytes. Returns `None` where the body has no
/// `messages` array, sets `response_format`, or nothing changed.
pub fn compress_request_body(body: &Json, original_size: usize) -> (r: Option<Json>)
    ensures
        match r {
            Some(j) => compress_body_spec(body@, original_size as nat) == Some(j@),
            None => compress_body_spec(body@, original_size as nat) is None,
        },
{
    let messages = match body.get("messages") {
        Some(m) => match m.as_array() {
            Some(a) => a,
            None => return None,
        },
        None => return None,
    };
    if body.get("response_format").is_some() {
        return None;
    }
    let ghost msgs = Seq::new(messages@.len(), |i: int| messages@[i]@);
    let system_protected = original_size <= SYSTEM_TRUNCATION_SIZE_THRESHOLD;
    let n = messages.len();
    let last_unprotected = n.saturating_sub(PROTECTED_TAIL_MESSAGES);
    let mut changed = false;
    let mut new_messages: Vec<Json> = Vec::new();
    let mut k: usize = 0;
    while k < n
        invariant
            n == messages@.len(),
            msgs == Seq::new(messages@.len(), |i: int| messages@[i]@),
            system_protected == (original_size <= SYSTEM_TRUNCATION_SIZE_THRESHOLD),
            last_unprotected == first_protected_index(n as int),
            k <= n,
            new_messages@.len() == k,
            forall|j: int|
                0 <= j < k ==> new_messages@[j]@ == match compressed_message(
                    msgs,
                    j,
                    original_size as nat,
                ) {
                    Some(c) => c,
                    None => msgs[j],
                },
            changed == exists|j: int|
                0 <= j < k && #[trigger] compressed_message(msgs, j, original_size as nat) is Some,
        decreases n - k,
    {
        let message = &messages[k];
        let ghost was_changed = changed;
        proof {
            assert(msgs[k as int] == message@);
        }
        if has_tool_payload_exec(message) {
            new_messages.push(message.deep_clone());
        } else {
            let is_system = message.field_str_is("role", "system");
            let protected = if is_system {
                system_protected
            } else {
                k >= last_unprotected
            };
            proof {
                assert(protected == message_protected(msgs, k as int, original_size as nat));
            }
            match compress_message(message, protected) {
                Some(compressed) => {
                    changed = true;
                    new_messages.push(compressed);
                },
                None => new_messages.push(message.deep_clone()),
            }
        }
        proof {
            assert(changed == (was_changed || compressed_message(msgs, k as int, original_size as nat) is Some));
        }
        k = k + 1;
    }
    if !changed {
        return None;
    }
    let pos = body.member_pos("messages").unwrap();
    let new_list = Json::Array(new_messages);
    let ghost expected = Seq::new(
        msgs.len(),
        |i: int|
            match compressed_message(msgs, i, original_size as nat) {
                Some(c) => c,
                None => msgs[i],
            },
    );
    proof {
        assert(new_list@->Array_0 =~= expected);
    }
    Some(body.deep_clone().with_member("messages", pos, new_list))
}

/// What compression promises of a request body: a body with a
/// `response_format`, or without a `messages` array, is never compressed;
/// a compressed body differs only in its `messages`, which keep their
/// number; a message with a tool or function payload stays exactly as it
/// was, and does not stop the others from being compressed: every other
/// message is replaced by its own compressed form under its protection, or
/// kept where that changes nothing; and a body is compressed exactly when
/// some message changes.
pub proof fn lemma_compress_body(body: JsonView, original_size: nat)
    ensures
        get_field(body, "response_format"@) is Some ==> compress_body_spec(body, original_size) is None,
        items_of(get_field(body, "messages"@)) is None ==> compress_body_spec(body, original_size) is None,
        items_of(get_field(body, "messages"@)) matches Some(msgs) ==> (compress_body_spec(
            body,
            original_size,
        ) is Some <==> (get_field(body, "response_format"@) is None && exists|i: int|
            0 <= i < msgs.len() && #[trigger] compressed_message(msgs, i, original_size) is Some)),
        compress_body_spec(body, original_size) matches Some(out) ==> {
            let msgs = items_of(get_field(body, "messages"@)).unwrap();
            &&& items_of(get_field(out, "messages"@)) matches Some(new_msgs)
            &&& new_msgs.len() == msgs.len()
            &&& forall|i: int| 0 <= i < msgs.len() && has_tool_payload(#[trigger] msgs[i]) ==> new_msgs[i] == msgs[i]
            &&& forall|i: int|
                0 <= i < msgs.len() ==> #[trigger] new_msgs[i] == msgs[i] || Some(new_msgs[i])
                    == compress_message_spec(msgs[i], message_protected(msgs, i, original_size))
            &&& forall|i: int|
                0 <= i < msgs.len() && !has_tool_payload(msgs[i]) ==> #[trigger] new_msgs[i] == match compress_message_spec(
                    msgs[i],
                    message_protected(msgs, i, original_size),
                ) {
                    Some(c) => c,
                    None => msgs[i],
                }
            &&& forall|k: Seq<char>| k != "messages"@ ==> #[trigger] get_field(out, k) == get_field(body, k)
        },
{
    match items_of(get_field(body, "messages"@)) {
        None => {},
        Some(msgs) => {
            if get_field(body, "response_format"@) is None && exists|i: int|
                0 <= i < msgs.len() && #[trigger] compressed_message(msgs, i, original_size) is Some {
                let new_msgs = Seq::new(
                    msgs.len(),
                    |i: int|
                        match compressed_message(msgs, i, original_size) {
                            Some(c) => c,
                            None => msgs[i],
                        },
                );
                let out = set_field(body, "messages"@, JsonView::Array(new_msgs));
                assert(compress_body_spec(body, original_size) == Some(out));
                lemma_set_field_get(body, "messages"@, JsonView::Array(new_msgs), "messages"@);
                assert forall|k: Seq<char>| k != "messages"@ implies #[trigger] get_field(out, k) == get_field(
                    body,
                    k,
                ) by {
                    lemma_set_field_get(body, "messages"@, JsonView::Array(new_msgs), k);
                }
            }
        },
    }
}

/// Which messages are protected from truncation: a `system` message
/// exactly while the raw request is at most
/// `SYSTEM_TRUNCATION_SIZE_THRESHOLD` bytes, and every other message among
/// the last `PROTECTED_TAIL_MESSAGES`.
pub proof fn lemma_message_protection(messages: Seq<JsonView>, i: int, original_size: nat)
    requires
        0 <= i < messages.len(),
    ensures
        str_field(messages[i], "role"@) == Some("system"@) ==> (message_protected(
            messages,
            i,
            original_size,
        ) <==> original_size <= SYSTEM_TRUNCATION_SIZE_THRESHOLD),
        str_field(messages[i], "role"@) != Some("system"@) && i + PROTECTED_TAIL_MESSAGES
            >= messages.len() ==> message_protected(messages, i, original_size),
{
}

/// A protected text is only minified, never truncated; an unprotected one
/// is truncated exactly when its minified form is over
/// `TRUNCATE_THRESHOLD` characters.
pub proof fn lemma_protected_text(t: Seq<char>)
    ensures
        compress_text_spec(t, true) == minify_spec(t),
        minify_spec(t).0.len() <= TRUNCATE_THRESHOLD ==> compress_text_spec(t, false) == minify_spec(t),
        minify_spec(t).0.len() > TRUNCATE_THRESHOLD ==> compress_text_spec(t, false) == (
            truncate_spec(minify_spec(t).0),
            true,
        ),
{
}

/// A protected message with text content keeps, as its content, exactly
/// the minified text.
pub proof fn lemma_protected_message(m: JsonView, s: Seq<char>)
    requires
        get_field(m, "content"@) == Some(JsonView::Str(s)),
    ensures
        compress_message_spec(m, true) matches Some(c) ==> get_field(c, "content"@) == Some(
            JsonView::Str(minify_spec(s).0),
        ),
        compress_message_spec(m, true) is None ==> minify_spec(s).0 == s,
{
    lemma_protected_text(s);
    lemma_set_field_get(m, "content"@, JsonView::Str(minify_spec(s).0), "content"@);
    if !minify_spec(s).1 {
        lemma_minify_unchanged(s);
    }
}

/// Truncation keeps a text of at most `TRUNCATE_HEAD + TRUNCATE_TAIL`
/// characters as it is; a longer one keeps its first `TRUNCATE_HEAD` and
/// last `TRUNCATE_TAIL` characters around the marker.
pub proof fn lemma_truncate(t: Seq<char>)
    ensures
        t.len() <= TRUNCATE_HEAD + TRUNCATE_TAIL ==> truncate_spec(t) == t,
        t.len() > TRUNCATE_HEAD + TRUNCATE_TAIL ==> {
            let r = truncate_spec(t);
            let marker = truncation_marker((t.len() - TRUNCATE_HEAD - TRUNCATE_TAIL) as nat);
            &&& r.len() == TRUNCATE_HEAD + marker.len() + TRUNCATE_TAIL
            &&& r.take(TRUNCATE_HEAD as int) == t.take(TRUNCATE_HEAD as int)
            &&& r.subrange(TRUNCATE_HEAD as int, TRUNCATE_HEAD + marker.len()) == marker
            &&& r.skip(r.len() - TRUNCATE_TAIL) == t.skip(t.len() - TRUNCATE_TAIL)
        },
{
    if t.len() > TRUNCATE_HEAD + TRUNCATE_TAIL {
        let r = truncate_spec(t);
        let marker = truncation_marker((t.len() - TRUNCATE_HEAD - TRUNCATE_TAIL) as nat);
        assert(r.take(TRUNCATE_HEAD as int) =~= t.take(TRUNCATE_HEAD as int));
        assert(r.subrange(TRUNCATE_HEAD as int, TRUNCATE_HEAD + marker.len()) =~= marker);
        assert(r.skip(r.len() - TRUNCATE_TAIL) =~= t.skip(t.len() - TRUNCATE_TAIL));
    }
}

/// A content part as a protected message has it: a text part whose
/// minification replaces something gets the minified text; any other part
/// is kept.
pub open spec fn minified_part(p: JsonView) -> JsonView {
    match part_text(p) {
        Some(t) => if minify_spec(t).1 {
            set_field(p, "text"@, JsonView::Str(minify_spec(t).0))
        } else {
            p
        },
        None => p,
    }
}

/// Compressing a content list treats each part on its own: a text part
/// whose text compression changes it gets the compressed text, and that
/// marks the whole list as changed whatever parts come after it; every
/// other part is kept; and the list counts as changed only when some text
/// part changed.
pub proof fn lemma_parts_change(parts: Seq<JsonView>, protected: bool)
    ensures
        compress_parts_spec(parts, protected).0.len() == parts.len(),
        forall|i: int|
            0 <= i < parts.len() ==> #[trigger] compress_parts_spec(parts, protected).0[i] == match part_text(
                parts[i],
            ) {
                Some(t) => if compress_text_spec(t, protected).1 {
                    set_field(parts[i], "text"@, JsonView::Str(compress_text_spec(t, protected).0))
                } else {
                    parts[i]
                },
                None => parts[i],
            },
        forall|i: int|
            0 <= i < parts.len() && (part_text(#[trigger] parts[i]) matches Some(t) && compress_text_spec(
                t,
                protected,
            ).1) ==> compress_parts_spec(parts, protected).1,
        compress_parts_spec(parts, protected).1 ==> exists|i: int|
            0 <= i < parts.len() && (part_text(#[trigger] parts[i]) matches Some(t) && compress_text_spec(
                t,
                protected,
            ).1),
{
    assert forall|i: int|
        0 <= i < parts.len() && (part_text(#[trigger] parts[i]) matches Some(t) && compress_text_spec(
            t,
            protected,
        ).1) implies compress_parts_spec(parts, protected).1 by {
        assert(compress_part_spec(parts[i], protected).1);
    }
    if compress_parts_spec(parts, protected).1 {
        let i = choose|i: int| 0 <= i < parts.len() && #[trigger] compress_part_spec(parts[i], protected).1;
        assert(part_text(parts[i]) matches Some(t) && compress_text_spec(t, protected).1);
    }
}

/// In a protected message no text part is truncated: each part is only
/// minified, and the list counts as changed only when a minification
/// replaced something.
pub proof fn lemma_protected_parts(parts: Seq<JsonView>)
    ensures
        compress_parts_spec(parts, true).0.len() == parts.len(),
        forall|i: int|
            0 <= i < parts.len() ==> #[trigger] compress_parts_spec(parts, true).0[i] == minified_part(parts[i]),
        compress_parts_spec(parts, true).1 ==> exists|i: int|
            0 <= i < parts.len() && (part_text(#[trigger] parts[i]) matches Some(t) && minify_spec(t).1),
        !compress_parts_spec(parts, true).1 ==> forall|i: int|
            0 <= i < parts.len() ==> minified_part(#[trigger] parts[i]) == parts[i],
{
    lemma_parts_change(parts, true);
    assert forall|i: int|
        0 <= i < parts.len() implies #[trigger] compress_parts_spec(parts, true).0[i] == minified_part(parts[i]) by {
        if let Some(t) = part_text(parts[i]) {
            lemma_protected_text(t);
        }
    }
    if compress_parts_spec(parts, true).1 {
        let i = choose|i: int|
            0 <= i < parts.len() && (part_text(#[trigger] parts[i]) matches Some(t) && compress_text_spec(
                t,
                true,
            ).1);
        let t = part_text(parts[i]).unwrap();
        lemma_protected_text(t);
        assert(part_text(parts[i]) matches Some(t) && minify_spec(t).1);
    } else {
        assert forall|i: int| 0 <= i < parts.len() implies minified_part(#[trigger] parts[i]) == parts[i] by {
            if let Some(t) = part_text(parts[i]) {
                lemma_protected_text(t);
                if minify_spec(t).1 {
                    assert(part_text(parts[i]) matches Some(t) && compress_text_spec(t, true).1);
                }
            }
        }
    }
}

/// An older message (before the protected tail) that is not the system
/// message and has no tool payload is not protected, whatever the size of
/// the request: when its minified text is over `TRUNCATE_THRESHOLD`
/// characters, the body is compressed and the message's text is cut.
pub proof fn lemma_old_message_truncated(
    body: JsonView,
    original_size: nat,
    msgs: Seq<JsonView>,
    i: int,
    s: Seq<char>,
)
    requires
        items_of(get_field(body, "messages"@)) == Some(msgs),
        get_field(body, "response_format"@) is None,
        0 <= i,
        i + PROTECTED_TAIL_MESSAGES < msgs.len(),
        str_field(msgs[i], "role"@) != Some("system"@),
        !has_tool_payload(msgs[i]),
        get_field(msgs[i], "content"@) == Some(JsonView::Str(s)),
        minify_spec(s).0.len() > TRUNCATE_THRESHOLD,
    ensures
        compress_body_spec(body, original_size) matches Some(out) && items_of(get_field(out, "messages"@))
            matches Some(nm) && get_field(nm[i], "content"@) == Some(
            JsonView::Str(truncate_spec(minify_spec(s).0)),
        ),
{
    assert(!message_protected(msgs, i, original_size));
    lemma_protected_text(s);
    let cut = JsonView::Str(truncate_spec(minify_spec(s).0));
    assert(compress_message_spec(msgs[i], false) == Some(set_field(msgs[i], "content"@, cut)));
    assert(compressed_message(msgs, i, original_size) is Some);
    lemma_compress_body(body, original_size);
    lemma_set_field_get(msgs[i], "content"@, cut, "content"@);
    let out = compress_body_spec(body, original_size).unwrap();
    let nm = items_of(get_field(out, "messages"@)).unwrap();
    assert(nm[i] == set_field(msgs[i], "content"@, cut));
}

/// A message of the protected tail (one of the last
/// `PROTECTED_TAIL_MESSAGES`, not the system message, without a tool
/// payload) with text content is never truncated: in a compressed body its
/// text is its minified text.
pub proof fn lemma_tail_text_not_truncated(
    body: JsonView,
    original_size: nat,
    msgs: Seq<JsonView>,
    i: int,
    s: Seq<char>,
)
    requires
        items_of(get_field(body, "messages"@)) == Some(msgs),
        0 <= i < msgs.len(),
        i + PROTECTED_TAIL_MESSAGES >= msgs.len(),
        str_field(msgs[i], "role"@) != Some("system"@),
        !has_tool_payload(msgs[i]),
        get_field(msgs[i], "content"@) == Some(JsonView::Str(s)),
    ensures
        compress_body_spec(body, original_size) matches Some(out) ==> (items_of(get_field(out, "messages"@))
            matches Some(nm) && get_field(nm[i], "content"@) == Some(JsonView::Str(minify_spec(s).0))),
{
    assert(message_protected(msgs, i, original_size));
    lemma_compress_body(body, original_size);
    lemma_protected_message(msgs[i], s);
}

/// A message of the protected tail with a list of parts is never
/// truncated: in a compressed body each of its parts is only minified.
pub proof fn lemma_tail_parts_not_truncated(
    body: JsonView,
    original_size: nat,
    msgs: Seq<JsonView>,
    i: int,
    parts: Seq<JsonView>,
)
    requires
        items_of(get_field(body, "messages"@)) == Some(msgs),
        0 <= i < msgs.len(),
        i + PROTECTED_TAIL_MESSAGES >= msgs.len(),
        str_field(msgs[i], "role"@) != Some("system"@),
        !has_tool_payload(msgs[i]),
        get_field(msgs[i], "content"@) == Some(JsonView::Array(parts)),
    ensures
        compress_body_spec(body, original_size) matches Some(out) ==> (items_of(get_field(out, "messages"@))
            matches Some(nm) && get_field(nm[i], "content"@) == Some(
            JsonView::Array(Seq::new(parts.len(), |j: int| minified_part(parts[j]))),
        )),
{
    assert(message_protected(msgs, i, original_size));
    lemma_compress_body(body, original_size);
    lemma_protected_parts(parts);
    let mp = Seq::new(parts.len(), |j: int| minified_part(parts[j]));
    let c = compress_parts_spec(parts, true);
    if c.1 {
        assert(c.0 =~= mp);
        lemma_set_field_get(msgs[i], "content"@, JsonView::Array(c.0), "content"@);
    } else {
        assert(mp =~= parts);
    }
}

/// A message with a `tool_calls` or `function_call` member, or with the
/// role `tool`, is forwarded exactly as it came, wherever it stands.
pub proof fn lemma_tool_message_kept(body: JsonView, original_size: nat, msgs: Seq<JsonView>, i: int)
    requires
        items_of(get_field(body, "messages"@)) == Some(msgs),
        0 <= i < msgs.len(),
        get_field(msgs[i], "tool_calls"@) is Some || get_field(msgs[i], "function_call"@) is Some
            || str_field(msgs[i], "role"@) == Some("tool"@),
    ensures
        compress_body_spec(body, original_size) matches Some(out) ==> (items_of(get_field(out, "messages"@))
            matches Some(nm) && nm[i] == msgs[i]),
{
    lemma_compress_body(body, original_size);
}

/// The system message (without a tool payload) is only minified while the
/// raw request is at most `SYSTEM_TRUNCATION_SIZE_THRESHOLD` bytes, wherever
/// it stands; above that size its text is cut when its minified form is
/// over `TRUNCATE_THRESHOLD` characters, even among the last messages.
pub proof fn lemma_system_message(
    body: JsonView,
    original_size: nat,
    msgs: Seq<JsonView>,
    i: int,
    s: Seq<char>,
)
    requires
        items_of(get_field(body, "messages"@)) == Some(msgs),
        get_field(body, "response_format"@) is None,
        0 <= i < msgs.len(),
        str_field(msgs[i], "role"@) == Some("system"@),
        !has_tool_payload(msgs[i]),
        get_field(msgs[i], "content"@) == Some(JsonView::Str(s)),
    ensures
        original_size <= SYSTEM_TRUNCATION_SIZE_THRESHOLD ==> (compress_body_spec(body, original_size)
            matches Some(out) ==> (items_of(get_field(out, "messages"@)) matches Some(nm) && get_field(
            nm[i],
            "content"@,
        ) == Some(JsonView::Str(minify_spec(s).0)))),
        original_size > SYSTEM_TRUNCATION_SIZE_THRESHOLD && minify_spec(s).0.len() > TRUNCATE_THRESHOLD ==> (
        compress_body_spec(body, original_size) matches Some(out) && items_of(get_field(out, "messages"@))
            matches Some(nm) && get_field(nm[i], "content"@) == Some(
            JsonView::Str(truncate_spec(minify_spec(s).0)),
        )),
{
    lemma_compress_body(body, original_size);
    lemma_protected_message(msgs[i], s);
    lemma_protected_text(s);
    if original_size > SYSTEM_TRUNCATION_SIZE_THRESHOLD && minify_spec(s).0.len() > TRUNCATE_THRESHOLD {
        let cut = JsonView::Str(truncate_spec(minify_spec(s).0));
        assert(!message_protected(msgs, i, original_size));
        assert(compress_message_spec(msgs[i], false) == Some(set_field(msgs[i], "content"@, cut)));
        assert(compressed_message(msgs, i, original_size) is Some);
        lemma_set_field_get(msgs[i], "content"@, cut, "content"@);
        let out = compress_body_spec(body, original_size).unwrap();
        let nm = items_of(get_field(out, "messages"@)).unwrap();
        assert(nm[i] == set_field(msgs[i], "content"@, cut));
    }
}

} // verus!
