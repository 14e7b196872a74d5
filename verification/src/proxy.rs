//! Logic of the reverse proxy around the forwarding itself: which headers
//! are forwarded and logged, what text of a response is kept in the request
//! history, and how the history file is read back.

use vstd::prelude::*;
use crate::json::{
    field_of, first_choice, get_in, item_in, json_opt_view, json_parse, json_parse_bytes, key_pos, opt_json,
    parse_json, parse_json_bytes, str_in, str_of, Json, JsonView,
};
use crate::chain_correlation::{correlation_of, extract_correlation, headers_view, opt_view, ChainCorrelation};
use crate::client_info::ClientInfo;
use crate::compress::{compress_body_spec, compress_request_body};
use crate::text::{
    append_chars, byte_len, contains_seq, contains_str, decimal, join_path, join_path_spec, lines_spec,
    lossy_string, push_decimal, split_at_chars,
    split_lines, starts_with_at, starts_with_seq, str_eq, to_chars, trim, trim_spec, utf8_lossy,
};
use vstd::string::StrSliceExecFns;

verus! {

/// How many characters of a response text a history record keeps.
pub const MAX_RESPONSE_CHARS: usize = 200_000;
/// How many trailing records the history returns by default.
pub const DEFAULT_HISTORY_LIMIT: usize = 200;

/// Text that one server-sent-events payload contributes: the
/// `choices[0].delta.content` string of the parsed payload.
pub open spec fn sse_delta(payload: Seq<char>) -> Seq<char> {
    match json_parse(payload) {
        Some(v) => match str_of(field_of(field_of(first_choice(v), "delta"@), "content"@)) {
            Some(s) => s,
            None => Seq::empty(),
        },
        None => Seq::empty(),
    }
}

/// Text that one line of an event stream contributes: for a `data:` line
/// whose trimmed payload is neither empty nor `[DONE]`, its delta text.
pub open spec fn sse_line_text(line: Seq<char>) -> Seq<char> {
    if starts_with_seq(line, "data:"@) {
        let p = trim_spec(line.skip("data:"@.len() as int));
        if p.len() == 0 || p == "[DONE]"@ {
            Seq::empty()
        } else {
            sse_delta(p)
        }
    } else {
        Seq::empty()
    }
}

/// Concatenation of the texts of the given event-stream lines.
pub open spec fn sse_lines_text(lines: Seq<Seq<char>>) -> Seq<char>
    decreases lines.len(),
{
    if lines.len() == 0 {
        Seq::empty()
    } else {
        sse_lines_text(lines.drop_last()) + sse_line_text(lines.last())
    }
}

/// The text of an event stream: the delta texts of its lines, in order.
pub open spec fn sse_text_spec(text: Seq<char>) -> Seq<char> {
    sse_lines_text(lines_spec(text))
}

/// Text contributed by one event-stream line.
fn sse_line(line: &str) -> (r: String)
    ensures
        r@ == sse_line_text(line@),
{
    let chars = to_chars(line);
    let prefix = "data:";
    assert(chars@.skip(0) =~= line@);
    if !starts_with_at(&chars, 0, prefix) {
        return String::new();
    }
    let pl = prefix.unicode_len();
    proof {
        assert(chars@.skip(0) =~= chars@);
        assert(line@.take(pl as int) == prefix@);
    }
    let (_head, rest) = split_at_chars(line, pl, byte_len(prefix));
    let payload = trim(rest);
    if payload.as_str().unicode_len() == 0 || str_eq(payload.as_str(), "[DONE]") {
        return String::new();
    }
    let parsed = parse_json(payload.as_str());
    match parsed {
        Some(v) => {
            let choice = item_in(get_in(Some(&v), "choices"), 0);
            match str_in(get_in(get_in(choice, "delta"), "content")) {
                Some(s) => s.clone(),
                None => String::new(),
            }
        },
        None => String::new(),
    }
}

/// Joins the `choices[0].delta.content` pieces of an event stream.
pub fn extract_sse_text(text: &str) -> (r: String)
    ensures
        r@ == sse_text_spec(text@),
{
    let lines = split_lines(text);
    let ghost ls = lines_spec(text@);
    let mut out = String::new();
    let mut k: usize = 0;
    while k < lines.len()
        invariant
            ls == lines_spec(text@),
            lines@.len() == ls.len(),
            forall|i: int| 0 <= i < lines@.len() ==> #[trigger] lines@[i]@ == ls[i],
            k <= lines@.len(),
            out@ == sse_lines_text(ls.take(k as int)),
        decreases lines@.len() - k,
    {
        let piece = sse_line(lines[k].as_str());
        out.append(piece.as_str());
        proof {
            assert(ls.take(k + 1).drop_last() =~= ls.take(k as int));
            assert(ls.take(k + 1).last() == lines@[k as int]@);
        }
        k = k + 1;
    }
    proof {
        assert(ls.take(lines@.len() as int) =~= ls);
    }
    out
}

/// The text of a JSON completion response: `choices[0].message.content`,
/// else `choices[0].text`; `None` where the text is not JSON or has neither.
pub open spec fn json_text_spec(text: Seq<char>) -> Option<Seq<char>> {
    match json_parse(text) {
        None => None,
        Some(v) => {
            let c = first_choice(v);
            match str_of(field_of(field_of(c, "message"@), "content"@)) {
                Some(s) => Some(s),
                None => str_of(field_of(c, "text"@)),
            }
        },
    }
}

/// The text of a JSON completion response (see [`json_text_spec`]).
pub fn extract_json_text(text: &str) -> (r: Option<String>)
    ensures
        match r {
            Some(s) => json_text_spec(text@) == Some(s@),
            None => json_text_spec(text@) is None,
        },
{
    let v = match parse_json(text) {
        Some(v) => v,
        None => return None,
    };
    let choice = item_in(get_in(Some(&v), "choices"), 0);
    match str_in(get_in(get_in(choice, "message"), "content")) {
        Some(s) => return Some(s.clone()),
        None => {},
    }
    match str_in(get_in(choice, "text")) {
        Some(s) => Some(s.clone()),
        None => None,
    }
}

/// The readable text of a response body kept in a history record: the
/// joined deltas of an event stream, the completion text of a JSON
/// response, or else the raw text; at most `MAX_RESPONSE_CHARS` characters.
pub open spec fn response_text_spec(content_type: Seq<char>, raw: Seq<u8>) -> Seq<char> {
    let text = utf8_lossy(raw);
    let result = if contains_seq(content_type, "text/event-stream"@) {
        sse_text_spec(text)
    } else {
        match json_text_spec(text) {
            Some(s) => s,
            None => text,
        }
    };
    if result.len() > MAX_RESPONSE_CHARS {
        result.take(MAX_RESPONSE_CHARS as int)
    } else {
        result
    }
}

/// The readable text of a response body (see [`response_text_spec`]).
pub fn extract_response_text(content_type: &str, raw: &[u8]) -> (r: String)
    ensures
        r@ == response_text_spec(content_type@, raw@),
{
    let text = lossy_string(raw);
    let result = if contains_str(content_type, "text/event-stream") {
        extract_sse_text(text.as_str())
    } else {
        match extract_json_text(text.as_str()) {
            Some(s) => s,
            None => text,
        }
    };
    let chars = to_chars(result.as_str());
    if chars.len() > MAX_RESPONSE_CHARS {
        let mut out = String::new();
        append_chars(&mut out, &chars, 0, MAX_RESPONSE_CHARS);
        proof {
            assert(chars@.subrange(0, MAX_RESPONSE_CHARS as int) =~= result@.take(
                MAX_RESPONSE_CHARS as int,
            ));
        }
        out
    } else {
        result
    }
}

/// Headers that are not forwarded in either direction: hop-by-hop ones
/// and those the HTTP client sets itself.
pub open spec fn is_hop_by_hop_spec(name: Seq<char>) -> bool {
    ||| name == "host"@
    ||| name == "content-length"@
    ||| name == "connection"@
    ||| name == "transfer-encoding"@
}

/// Whether a header (by its lower-case name) is not forwarded.
pub fn is_hop_by_hop(name: &str) -> (r: bool)
    ensures
        r == is_hop_by_hop_spec(name@),
{
    str_eq(name, "host") || str_eq(name, "content-length") || str_eq(name, "connection") || str_eq(
        name,
        "transfer-encoding",
    )
}

/// ASCII lower case of a character.
pub open spec fn ascii_lower(c: char) -> char {
    if 'A' <= c <= 'Z' {
        ((c as u32) + 32) as char
    } else {
        c
    }
}

/// ASCII-case-insensitive equality (`str::eq_ignore_ascii_case`).
pub open spec fn eq_ignore_ascii_case_spec(a: Seq<char>, b: Seq<char>) -> bool {
    a.len() == b.len() && forall|i: int| 0 <= i < a.len() ==> ascii_lower(#[trigger] a[i]) == ascii_lower(b[i])
}

/// ASCII-case-insensitive equality of two strings.
pub fn eq_ignore_ascii_case(a: &str, b: &str) -> (r: bool)
    ensures
        r == eq_ignore_ascii_case_spec(a@, b@),
{
    let x = to_chars(a);
    let y = to_chars(b);
    if x.len() != y.len() {
        return false;
    }
    let mut k: usize = 0;
    while k < x.len()
        invariant
            x@ == a@,
            y@ == b@,
            x@.len() == y@.len(),
            k <= x@.len(),
            forall|i: int| 0 <= i < k ==> ascii_lower(#[trigger] a@[i]) == ascii_lower(b@[i]),
        decreases x@.len() - k,
    {
        let cx = x[k];
        let cy = y[k];
        let lx = if 'A' <= cx && cx <= 'Z' { ((cx as u32) + 32) as u8 as char } else { cx };
        let ly = if 'A' <= cy && cy <= 'Z' { ((cy as u32) + 32) as u8 as char } else { cy };
        proof {
            if 'A' <= cx && cx <= 'Z' {
                assert(((cx as u32) + 32) as u8 as char == ((cx as u32) + 32) as char);
            }
            if 'A' <= cy && cy <= 'Z' {
                assert(((cy as u32) + 32) as u8 as char == ((cy as u32) + 32) as char);
            }
        }
        if lx != ly {
            return false;
        }
        k = k + 1;
    }
    true
}

/// Whether a header is kept out of the logged copy: credentials.
pub open spec fn is_secret_header(name: Seq<char>) -> bool {
    eq_ignore_ascii_case_spec(name, "authorization"@) || eq_ignore_ascii_case_spec(
        name,
        "x-api-key"@,
    )
}

/// Inserts a member into an object's member list: a member of that name
/// gets the new value in place; otherwise the member is added at the end.
pub open spec fn insert_member(fields: Seq<(Seq<char>, JsonView)>, key: Seq<char>, v: JsonView) -> Seq<
    (Seq<char>, JsonView),
> {
    let p = key_pos(fields, key);
    if 0 <= p < fields.len() {
        fields.update(p, (key, v))
    } else {
        fields.push((key, v))
    }
}

/// The logged copy of request headers: every header with a text value
/// except credentials, the last value of a repeated name winning.
pub open spec fn redacted_members(h: Seq<(Seq<char>, Option<Seq<char>>)>) -> Seq<
    (Seq<char>, JsonView),
>
    decreases h.len(),
{
    if h.len() == 0 {
        Seq::empty()
    } else {
        let acc = redacted_members(h.drop_last());
        let (name, value) = h.last();
        if is_secret_header(name) {
            acc
        } else {
            match value {
                Some(v) => insert_member(acc, name, JsonView::Str(v)),
                None => acc,
            }
        }
    }
}

/// Copy of the request headers for the log, without credentials.
pub fn redact_headers(headers: &Vec<(String, Option<String>)>) -> (r: Json)
    ensures
        r@ == JsonView::Object(redacted_members(headers_view(headers@))),
{
    let ghost hv = headers_view(headers@);
    let mut obj = Json::Object(Vec::new());
    let mut k: usize = 0;
    proof {
        assert(hv.take(0) =~= Seq::<(Seq<char>, Option<Seq<char>>)>::empty());
        assert(obj@->Object_0 =~= Seq::<(Seq<char>, JsonView)>::empty());
    }
    while k < headers.len()
        invariant
            hv == headers_view(headers@),
            k <= headers@.len(),
            obj@ == JsonView::Object(redacted_members(hv.take(k as int))),
        decreases headers@.len() - k,
    {
        let name = &headers[k].0;
        proof {
            assert(hv.take(k + 1).drop_last() =~= hv.take(k as int));
            assert(hv.take(k + 1).last() == (name@, opt_view(headers@[k as int].1)));
        }
        if !eq_ignore_ascii_case(name.as_str(), "authorization") && !eq_ignore_ascii_case(
            name.as_str(),
            "x-api-key",
        ) {
            match &headers[k].1 {
                Some(v) => {
                    obj = obj.with_inserted(name.as_str(), Json::Str(v.clone()));
                },
                None => {},
            }
        }
        k = k + 1;
    }
    proof {
        assert(hv.take(headers@.len() as int) =~= hv);
    }
    obj
}

/// Values parsed from the lines that are JSON documents, in order; other
/// lines are skipped.
pub open spec fn parsed_lines(lines: Seq<Seq<char>>) -> Seq<JsonView>
    decreases lines.len(),
{
    if lines.len() == 0 {
        Seq::empty()
    } else {
        let acc = parsed_lines(lines.drop_last());
        match json_parse(lines.last()) {
            Some(v) => acc.push(v),
            None => acc,
        }
    }
}

/// Parses each of the given lines, keeping those that are JSON.
pub fn parse_lines(lines: &Vec<String>, from: usize) -> (r: Vec<Json>)
    requires
        from <= lines@.len(),
    ensures
        r@.len() == parsed_lines(Seq::new(lines@.len(), |i: int| lines@[i]@).skip(from as int)).len(),
        forall|i: int|
            0 <= i < r@.len() ==> #[trigger] r@[i]@ == parsed_lines(
                Seq::new(lines@.len(), |j: int| lines@[j]@).skip(from as int),
            )[i],
{
    let ghost ls = Seq::new(lines@.len(), |j: int| lines@[j]@).skip(from as int);
    let mut out: Vec<Json> = Vec::new();
    let mut k: usize = from;
    while k < lines.len()
        invariant
            ls == Seq::new(lines@.len(), |j: int| lines@[j]@).skip(from as int),
            from <= k <= lines@.len(),
            out@.len() == parsed_lines(ls.take(k - from)).len(),
            forall|i: int| 0 <= i < out@.len() ==> #[trigger] out@[i]@ == parsed_lines(ls.take(k - from))[i],
        decreases lines@.len() - k,
    {
        proof {
            assert(ls.take(k - from + 1).drop_last() =~= ls.take(k - from));
            assert(ls.take(k - from + 1).last() == lines@[k as int]@);
        }
        match parse_json(lines[k].as_str()) {
            Some(v) => out.push(v),
            None => {},
        }
        k = k + 1;
    }
    proof {
        assert(ls.take(lines@.len() - from) =~= ls);
    }
    out
}

/// The last `limit` lines of a history file, parsed; lines that are not
/// JSON are skipped.
pub open spec fn tail_entries_spec(content: Seq<char>, limit: nat) -> Seq<JsonView> {
    let ls = lines_spec(content);
    let start = if ls.len() >= limit { ls.len() - limit } else { 0 };
    parsed_lines(ls.skip(start))
}

/// The last `limit` records of a history file's content.
pub fn tail_entries(content: &str, limit: usize) -> (r: Vec<Json>)
    ensures
        r@.len() == tail_entries_spec(content@, limit as nat).len(),
        forall|i: int| 0 <= i < r@.len() ==> #[trigger] r@[i]@ == tail_entries_spec(content@, limit as nat)[i],
{
    let lines = split_lines(content);
    let start = lines.len().saturating_sub(limit);
    proof {
        assert(Seq::new(lines@.len(), |j: int| lines@[j]@) =~= lines_spec(content@));
    }
    parse_lines(&lines, start)
}

/// Whether a request is recorded in the history: liveness pings of
/// `/health` are not.
pub fn should_log(path: &str) -> (r: bool)
    ensures
        r == (path@ != "/health"@),
{
    !str_eq(path, "/health")
}

/// The upstream URL of a request: the upstream base followed by the path
/// and query of the request.
pub fn upstream_url(base: &str, path: &str) -> (r: String)
    ensures
        r@ == base@ + path@,
{
    let mut url = base.to_owned();
    url.append(path);
    url
}

/// The `model` named in a request body.
pub fn request_model(body: Option<&Json>) -> (r: Option<String>)
    ensures
        opt_view(r) == str_of(field_of(opt_json(body), "model"@)),
{
    match str_in(get_in(body, "model")) {
        Some(s) => Some(s.clone()),
        None => None,
    }
}

/// A failure of the proxy's own plumbing.
#[derive(Debug)]
pub enum ProxyError {
    /// A file or socket operation failed; the system's description.
    Io(String),
    /// The listening address could not be bound: the address and why.
    Bind(String, String),
    /// The proxy was asked to stop while not running.
    NotRunning,
    /// The application's data directory could not be found.
    AppData(String),
}

/// The text a [`ProxyError`] is shown as.
pub open spec fn proxy_error_text(e: ProxyError) -> Seq<char> {
    match e {
        ProxyError::Io(m) => "IO error: "@ + m@,
        ProxyError::Bind(a, m) => "failed to bind "@ + a@ + ": "@ + m@,
        ProxyError::NotRunning => "proxy is not running"@,
        ProxyError::AppData(m) => "could not resolve app data dir: "@ + m@,
    }
}

impl ProxyError {
    /// The text the error is shown as (see [`proxy_error_text`]).
    pub fn message(&self) -> (r: String)
        ensures
            r@ == proxy_error_text(*self),
    {
        match self {
            ProxyError::Io(m) => {
                let mut s = "IO error: ".to_owned();
                s.append(m.as_str());
                s
            },
            ProxyError::Bind(a, m) => {
                let mut s = "failed to bind ".to_owned();
                s.append(a.as_str());
                s.append(": ");
                s.append(m.as_str());
                s
            },
            ProxyError::NotRunning => "proxy is not running".to_owned(),
            ProxyError::AppData(m) => {
                let mut s = "could not resolve app data dir: ".to_owned();
                s.append(m.as_str());
                s
            },
        }
    }
}

/// The loopback address the proxy listens on for `port`.
pub fn bind_address(port: u16) -> (r: String)
    ensures
        r@ == "127.0.0.1:"@ + decimal(port as nat),
{
    let mut s = "127.0.0.1:".to_owned();
    push_decimal(&mut s, port as u64);
    s
}

/// The request history file in a data directory.
pub fn history_path(data_dir: &str) -> (r: String)
    ensures
        r@ == join_path_spec(data_dir@, "requests.jsonl"@),
{
    join_path(data_dir, "requests.jsonl")
}

/// One record of the request history.
#[derive(Debug)]
pub struct RequestLogEntry {
    pub id: u64,
    pub timestamp_ms: u64,
    pub method: String,
    pub path: String,
    pub status: u16,
    pub duration_ms: u64,
    pub model: Option<String>,
    /// The request headers without credentials.
    pub request_headers: Json,
    /// The request body as the client sent it, when it is JSON.
    pub request_body: Option<Json>,
    /// The readable text of the response.
    pub response_text: String,
    /// The process that made the request, when it was found.
    pub client: Option<ClientInfo>,
    /// Whether the body sent upstream was the compressed one.
    pub prompt_compressed: bool,
    pub correlation_id: Option<String>,
    pub chain_step: Option<u32>,
    pub chain_kind: Option<String>,
    pub chain_cwd: Option<String>,
    pub prompt_hash: Option<String>,
}

/// What the proxy decides about a request before forwarding it.
#[derive(Debug)]
pub struct PreparedRequest {
    /// Where the request goes upstream.
    pub url: String,
    /// The request body, when it is JSON.
    pub request_body: Option<Json>,
    /// The model the body names.
    pub model: Option<String>,
    /// The logged copy of the request headers.
    pub request_headers: Json,
    /// Correlation with client-side call chains.
    pub correlation: ChainCorrelation,
    /// The compressed body to send upstream in place of the original one.
    pub compressed_body: Option<Json>,
    /// Whether the exchange goes into the history.
    pub should_log: bool,
}

/// Decides how a request is forwarded and logged: the upstream URL, the
/// parsed body and its model, the logged headers, the chain correlation
/// (taken from the body as the client sent it), the compressed body when
/// compression applies, and whether the request is logged.
pub fn prepare_request(
    upstream_base_url: &str,
    path: &str,
    headers: &Vec<(String, Option<String>)>,
    body: &[u8],
) -> (r: PreparedRequest)
    ensures
        r.url@ == upstream_base_url@ + path@,
        json_opt_view(r.request_body) == json_parse_bytes(body@),
        opt_view(r.model) == str_of(field_of(json_parse_bytes(body@), "model"@)),
        r.request_headers@ == JsonView::Object(redacted_members(headers_view(headers@))),
        correlation_of(r.correlation, headers_view(headers@), json_parse_bytes(body@)),
        json_opt_view(r.compressed_body) == match json_parse_bytes(body@) {
            Some(b) => compress_body_spec(b, body@.len()),
            None => None,
        },
        r.should_log == (path@ != "/health"@),
{
    let request_body = parse_json_bytes(body);
    let model = request_model(request_body.as_ref());
    let request_headers = redact_headers(headers);
    let correlation = extract_correlation(headers, request_body.as_ref());
    let compressed_body = match &request_body {
        Some(b) => compress_request_body(b, body.len()),
        None => None,
    };
    PreparedRequest {
        url: upstream_url(upstream_base_url, path),
        request_body,
        model,
        request_headers,
        correlation,
        compressed_body,
        should_log: should_log(path),
    }
}

/// The history record of a finished exchange: the prepared request's
/// parts, the readable text of the captured response body, and the
/// figures measured around the exchange.
pub fn finish_entry(
    prepared: PreparedRequest,
    id: u64,
    timestamp_ms: u64,
    method: String,
    path: String,
    status: u16,
    duration_ms: u64,
    content_type: &str,
    captured: &[u8],
    client: Option<ClientInfo>,
    prompt_compressed: bool,
) -> (r: RequestLogEntry)
    ensures
        r.id == id,
        r.timestamp_ms == timestamp_ms,
        r.method == method,
        r.path == path,
        r.status == status,
        r.duration_ms == duration_ms,
        r.model == prepared.model,
        r.request_headers == prepared.request_headers,
        r.request_body == prepared.request_body,
        r.response_text@ == response_text_spec(content_type@, captured@),
        r.client == client,
        r.prompt_compressed == prompt_compressed,
        r.correlation_id == prepared.correlation.correlation_id,
        r.chain_step == prepared.correlation.chain_step,
        r.chain_kind == prepared.correlation.chain_kind,
        r.chain_cwd == prepared.correlation.chain_cwd,
        r.prompt_hash == prepared.correlation.prompt_hash,
{
    let response_text = extract_response_text(content_type, captured);
    RequestLogEntry {
        id,
        timestamp_ms,
        method,
        path,
        status,
        duration_ms,
        model: prepared.model,
        request_headers: prepared.request_headers,
        request_body: prepared.request_body,
        response_text,
        client,
        prompt_compressed,
        correlation_id: prepared.correlation.correlation_id,
        chain_step: prepared.correlation.chain_step,
        chain_kind: prepared.correlation.chain_kind,
        chain_cwd: prepared.correlation.chain_cwd,
        prompt_hash: prepared.correlation.prompt_hash,
    }
}

/// The readable text of a response is never longer than
/// `MAX_RESPONSE_CHARS` characters, and a shorter one is kept whole.
pub proof fn lemma_response_text_bounded(content_type: Seq<char>, raw: Seq<u8>)
    ensures
        response_text_spec(content_type, raw).len() <= MAX_RESPONSE_CHARS,
{
}

proof fn lemma_parsed_lines_len(lines: Seq<Seq<char>>)
    ensures
        parsed_lines(lines).len() <= lines.len(),
    decreases lines.len(),
{
    if lines.len() > 0 {
        lemma_parsed_lines_len(lines.drop_last());
    }
}

/// The history read back holds at most `limit` records.
pub proof fn lemma_tail_entries_bounded(content: Seq<char>, limit: nat)
    ensures
        tail_entries_spec(content, limit).len() <= limit,
{
    let ls = lines_spec(content);
    let start = if ls.len() >= limit { ls.len() - limit } else { 0 };
    lemma_parsed_lines_len(ls.skip(start));
}

proof fn lemma_insert_member_names(
    fields: Seq<(Seq<char>, JsonView)>,
    key: Seq<char>,
    v: JsonView,
)
    ensures
        forall|i: int| 0 <= i < insert_member(fields, key, v).len() ==> {
            let n = (#[trigger] insert_member(fields, key, v)[i]).0;
            n == key || exists|j: int| 0 <= j < fields.len() && fields[j].0 == n
        },
        key_pos(insert_member(fields, key, v), key) >= 0,
        forall|k: Seq<char>| key_pos(fields, k) >= 0 ==> #[trigger] key_pos(insert_member(fields, key, v), k) >= 0,
{
    crate::json::lemma_key_pos_bound(fields, key);
    let r = insert_member(fields, key, v);
    let p = key_pos(fields, key);
    assert forall|i: int| 0 <= i < r.len() implies {
        let n = (#[trigger] r[i]).0;
        n == key || exists|j: int| 0 <= j < fields.len() && fields[j].0 == n
    } by {
        if i < fields.len() && !(0 <= p < fields.len() && i == p) {
            assert(r[i] == fields[i]);
        }
    }
    if 0 <= p < fields.len() {
        crate::json::lemma_key_pos_names(fields, r, key);
        assert forall|k: Seq<char>| key_pos(fields, k) >= 0 implies #[trigger] key_pos(r, k) >= 0 by {
            crate::json::lemma_key_pos_names(fields, r, k);
        }
    } else {
        assert forall|k: Seq<char>| key_pos(fields, k) >= 0 implies #[trigger] key_pos(r, k) >= 0 by {
            crate::json::lemma_key_pos_bound(fields, k);
            crate::json::lemma_key_pos_bound(r, k);
            let q = key_pos(fields, k);
            assert(r[q] == fields[q]);
        }
        crate::json::lemma_key_pos_bound(r, key);
        assert(r[fields.len() as int].0 == key);
    }
}

/// The logged copy of the request headers holds no credentials
/// (`authorization`, `x-api-key`, in any letter case), only names the
/// request carried, and every other header that has a text value.
pub proof fn lemma_redacted_headers(h: Seq<(Seq<char>, Option<Seq<char>>)>)
    ensures
        forall|i: int| 0 <= i < redacted_members(h).len() ==> !is_secret_header(
            #[trigger] redacted_members(h)[i].0,
        ) && exists|j: int| 0 <= j < h.len() && h[j].0 == redacted_members(h)[i].0,
        forall|j: int|
            0 <= j < h.len() && !is_secret_header(#[trigger] h[j].0) && h[j].1 is Some ==> key_pos(
                redacted_members(h),
                h[j].0,
            ) >= 0,
    decreases h.len(),
{
    if h.len() > 0 {
        let hd = h.drop_last();
        lemma_redacted_headers(hd);
        let acc = redacted_members(hd);
        let (name, value) = h.last();
        let r = redacted_members(h);
        if !is_secret_header(name) && value is Some {
            lemma_insert_member_names(acc, name, JsonView::Str(value.unwrap()));
        }
        assert forall|i: int| 0 <= i < r.len() implies !is_secret_header(#[trigger] r[i].0) && exists|j: int|
            0 <= j < h.len() && h[j].0 == r[i].0 by {
            if r == acc {
                let j = choose|j: int| 0 <= j < hd.len() && hd[j].0 == acc[i].0;
                assert(h[j] == hd[j]);
            } else {
                let n = r[i].0;
                if n == name {
                    assert(h[h.len() - 1] == h.last());
                } else {
                    let k = choose|k: int| 0 <= k < acc.len() && acc[k].0 == n;
                    let j = choose|j: int| 0 <= j < hd.len() && hd[j].0 == acc[k].0;
                    assert(h[j] == hd[j]);
                }
            }
        }
        assert forall|j: int|
            0 <= j < h.len() && !is_secret_header(#[trigger] h[j].0) && h[j].1 is Some implies key_pos(
                r,
                h[j].0,
            ) >= 0 by {
            if j < hd.len() {
                assert(hd[j] == h[j]);
            } else {
                assert(h[j] == h.last());
            }
        }
    }
}

proof fn lemma_sse_lines_concat(x: Seq<Seq<char>>, y: Seq<Seq<char>>)
    ensures
        sse_lines_text(x + y) == sse_lines_text(x) + sse_lines_text(y),
    decreases y.len(),
{
    if y.len() == 0 {
        assert(x + y =~= x);
        assert(sse_lines_text(x) + Seq::<char>::empty() =~= sse_lines_text(x));
    } else {
        lemma_sse_lines_concat(x, y.drop_last());
        assert((x + y).drop_last() =~= x + y.drop_last());
        assert((x + y).last() == y.last());
        assert(sse_lines_text(x + y) =~= sse_lines_text(x) + sse_lines_text(y));
    }
}

/// An event stream can be read in pieces cut at line breaks: the text of
/// the whole is the text of the first piece followed by that of the rest.
pub proof fn lemma_sse_text_concat(a: Seq<char>, b: Seq<char>)
    requires
        a.len() == 0 || a.last() == '\n',
    ensures
        sse_text_spec(a + b) == sse_text_spec(a) + sse_text_spec(b),
{
    crate::text::lemma_lines_concat(a, b);
    lemma_sse_lines_concat(lines_spec(a), lines_spec(b));
}

} // verus!
