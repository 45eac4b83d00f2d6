//! The camera speaks plain HTTP/1.0 with `Connection: close`, so a request
//! is one head plus an optional body, and a reply is read to its end. This
//! module writes request bytes and reads reply bytes; moving them over a
//! socket is the caller's part.

use vstd::prelude::*;
use crate::decimal::{decimal, decimal_chars, parse_u16, parse_unsigned};
use crate::text::{
    chars_of, concat, eq_ignore_ascii_case, eq_ignore_ascii_case_exec, find,
    find_chars, find_from, is_ws, is_ws_exec, lemma_find_from_bounds, lossy_utf8, occurs_at,
    slice_chars, string_of, trim, trim_chars, trim_start, utf8_lossy,
};
use crate::url::{split_url, split_url_spec};

verus! {

/// The user agent the camera expects.
pub const UA: &'static str = "UPnP/1.0 DLNADOC/1.50 Sony";

/// One HTTP request to make.
#[derive(Debug)]
pub struct HttpCall {
    pub method: String,
    pub url: String,
    pub headers: Vec<(String, String)>,
    pub body: Option<Vec<u8>>,
}

/// What a reply says: its status, body and `Content-Type`.
#[derive(Debug)]
pub struct HttpReply {
    pub status: u16,
    pub body: Vec<u8>,
    pub content_type: String,
}

pub open spec fn headers_view(h: Seq<(String, String)>) -> Seq<(Seq<char>, Seq<char>)> {
    h.map_values(|p: (String, String)| (p.0@, p.1@))
}

fn bytes_of(s: &str) -> (r: Vec<u8>)
    ensures
        r@ == vstd::utf8::encode_utf8(s@),
{
    vstd::slice::slice_to_vec(s.as_bytes())
}

/// The first position where `needle` occurs in `haystack`.
pub fn find_subslice(haystack: &[u8], needle: &[u8]) -> (r: Option<usize>)
    requires
        needle@.len() > 0,
    ensures
        r matches Some(k) ==> find(haystack@, needle@) == Some(k as int),
        r is None ==> find(haystack@, needle@) is None,
{
    if needle.len() > haystack.len() {
        return None;
    }
    let hlen = haystack.len();
    let top = hlen - needle.len();
    let mut i: usize = 0;
    loop
        invariant
            0 <= i <= top,
            hlen == haystack@.len(),
            top == haystack@.len() - needle@.len(),
            find(haystack@, needle@) == find_from(haystack@, needle@, i as int),
        decreases top - i,
    {
        let mut j: usize = 0;
        let mut same = true;
        while j < needle.len()
            invariant
                0 <= j <= needle@.len(),
                i + needle@.len() <= haystack@.len(),
                hlen == haystack@.len(),
                same == forall|k: int| 0 <= k < j ==> haystack@[i + k] == needle@[k],
            decreases needle.len() - j,
        {
            if haystack[i + j] != needle[j] {
                same = false;
            }
            j = j + 1;
        }
        if same {
            assert(haystack@.subrange(i as int, i + needle@.len()) =~= needle@);
            return Some(i);
        } else {
            assert(!occurs_at(haystack@, needle@, i as int)) by {
                let k = choose|k: int| 0 <= k < needle@.len() && haystack@[i + k] != needle@[k];
                assert(haystack@.subrange(i as int, i + needle@.len())[k] != needle@[k]);
            }
        }
        if i == top {
            assert(find_from(haystack@, needle@, i + 1) is None);
            return None;
        }
        i = i + 1;
    }
}

/// `k: v\r\n` for each header, in order.
pub open spec fn header_lines(h: Seq<(Seq<char>, Seq<char>)>) -> Seq<char>
    decreases h.len(),
{
    if h.len() == 0 {
        Seq::empty()
    } else {
        header_lines(h.drop_last()) + h.last().0 + ": "@ + h.last().1 + "\r\n"@
    }
}

/// The head of an HTTP/1.0 request for `path` on `host:port`.
pub open spec fn request_head(
    method: Seq<char>,
    host: Seq<char>,
    port: u16,
    path: Seq<char>,
    headers: Seq<(Seq<char>, Seq<char>)>,
    body_len: Option<nat>,
) -> Seq<char> {
    method + " "@ + path + " HTTP/1.0\r\nHost: "@ + host + ":"@ + decimal(port as nat) + "\r\n"@
        + header_lines(headers) + match body_len {
        Some(n) => "Content-Length: "@ + decimal(n) + "\r\n"@,
        None => Seq::empty(),
    } + "Connection: close\r\n\r\n"@
}

pub open spec fn body_len(b: Option<Vec<u8>>) -> Option<nat> {
    match b {
        Some(v) => Some(v@.len()),
        None => None,
    }
}

/// Where to connect and what to send for `call`, or why its URL cannot be used.
pub open spec fn encode_spec(call: HttpCall) -> Result<(Seq<char>, u16, Seq<u8>), Seq<char>> {
    match split_url_spec(call.url@) {
        Err(e) => Err(e),
        Ok((host, port, path)) => Ok(
            (
                host,
                port,
                vstd::utf8::encode_utf8(
                    request_head(call.method@, host, port, path, headers_view(call.headers@), body_len(call.body)),
                ) + match call.body {
                    Some(b) => b@,
                    None => Seq::empty(),
                },
            ),
        ),
    }
}

pub open spec fn encode_view(r: Result<(String, u16, Vec<u8>), String>) -> Result<(Seq<char>, u16, Seq<u8>), Seq<char>> {
    match r {
        Ok((h, p, b)) => Ok((h@, p, b@)),
        Err(e) => Err(e@),
    }
}

fn header_lines_exec(headers: &Vec<(String, String)>) -> (r: Vec<char>)
    ensures
        r@ == header_lines(headers_view(headers@)),
{
    let ghost hv = headers_view(headers@);
    let sep = chars_of(": ");
    let crlf = chars_of("\r\n");
    let mut r: Vec<char> = Vec::new();
    let mut i: usize = 0;
    while i < headers.len()
        invariant
            0 <= i <= headers@.len(),
            hv == headers_view(headers@),
            sep@ == ": "@,
            crlf@ == "\r\n"@,
            r@ == header_lines(hv.take(i as int)),
        decreases headers.len() - i,
    {
        let line = concat(&concat(&concat(&chars_of(headers[i].0.as_str()), &sep), &chars_of(headers[i].1.as_str())), &crlf);
        r = concat(&r, &line);
        assert(hv.take(i + 1).drop_last() =~= hv.take(i as int));
        i = i + 1;
    }
    assert(hv.take(headers@.len() as int) =~= hv);
    r
}

/// The host and port to connect to, and the bytes to send, for `call`.
pub fn encode(call: &HttpCall) -> (r: Result<(String, u16, Vec<u8>), String>)
    ensures
        encode_view(r) == encode_spec(*call),
{
    let (host, port, path) = match split_url(call.url.as_str()) {
        Ok(parts) => parts,
        Err(e) => return Err(e),
    };
    let mut head = concat(&chars_of(call.method.as_str()), &chars_of(" "));
    head = concat(&head, &chars_of(path.as_str()));
    head = concat(&head, &chars_of(" HTTP/1.0\r\nHost: "));
    head = concat(&head, &chars_of(host.as_str()));
    head = concat(&head, &chars_of(":"));
    head = concat(&head, &decimal_chars(port as u64));
    head = concat(&head, &chars_of("\r\n"));
    head = concat(&head, &header_lines_exec(&call.headers));
    match &call.body {
        Some(b) => {
            let cl = concat(&concat(&chars_of("Content-Length: "), &decimal_chars(b.len() as u64)), &chars_of("\r\n"));
            head = concat(&head, &cl);
        },
        None => {
            let e: Vec<char> = Vec::new();
            head = concat(&head, &e);
        },
    }
    head = concat(&head, &chars_of("Connection: close\r\n\r\n"));
    let mut bytes = bytes_of(string_of(&head).as_str());
    match &call.body {
        Some(b) => {
            let mut tail = vstd::slice::slice_to_vec(b.as_slice());
            bytes.append(&mut tail);
        },
        None => {
            assert(bytes@ + Seq::<u8>::empty() =~= bytes@);
        },
    }
    Ok((host, port, bytes))
}

} // verus!

verus! {

/// `l` without one trailing `\r`.
pub open spec fn strip_cr(l: Seq<char>) -> Seq<char> {
    if l.len() > 0 && l.last() == '\r' {
        l.drop_last()
    } else {
        l
    }
}

/// `str::lines`: split at `\n`, a `\r` before it dropped; no empty last line.
pub open spec fn lines(s: Seq<char>) -> Seq<Seq<char>>
    decreases s.len(),
{
    if s.len() == 0 {
        Seq::empty()
    } else {
        match find(s, seq!['\n']) {
            Some(i) => if 0 <= i < s.len() {
                seq![strip_cr(s.take(i))] + lines(s.skip(i + 1))
            } else {
                Seq::empty()
            },
            None => seq![s],
        }
    }
}

/// The index of the first whitespace character at or after `i`, or `s.len()`.
pub open spec fn ws_from(s: Seq<char>, i: int) -> int
    decreases s.len() - i,
{
    if i < 0 || i >= s.len() {
        s.len() as int
    } else if is_ws(s[i]) {
        i
    } else {
        ws_from(s, i + 1)
    }
}

/// The first whitespace-separated token of `s` and the text after it.
pub open spec fn next_token(s: Seq<char>) -> (Seq<char>, Seq<char>) {
    let t = trim_start(s);
    let k = ws_from(t, 0);
    (t.take(k), t.skip(k))
}

/// `s.split_whitespace().nth(1)`.
pub open spec fn second_token(s: Seq<char>) -> Option<Seq<char>> {
    let (t0, r0) = next_token(s);
    let (t1, _) = next_token(r0);
    if t0.len() == 0 || t1.len() == 0 {
        None
    } else {
        Some(t1)
    }
}

/// The status code of a reply head: the second word of its first line, or
/// 0 when there is none or it is not a number.
pub open spec fn status_of(head_lines: Seq<Seq<char>>) -> u16 {
    if head_lines.len() == 0 {
        0
    } else {
        match second_token(head_lines[0]) {
            Some(t) => match parse_unsigned(t, u16::MAX as nat) {
                Some(v) => v as u16,
                None => 0,
            },
            None => 0,
        }
    }
}

/// The `Content-Type` value among header lines `hl[1..n]` (the last wins;
/// empty when none).
pub open spec fn content_type_below(hl: Seq<Seq<char>>, n: int) -> Seq<char>
    decreases n,
{
    if n <= 1 || n > hl.len() {
        Seq::empty()
    } else {
        let line = hl[n - 1];
        match find(line, seq![':']) {
            Some(c) => if eq_ignore_ascii_case(trim(line.take(c)), "content-type"@) {
                trim(line.skip(c + 1))
            } else {
                content_type_below(hl, n - 1)
            },
            None => content_type_below(hl, n - 1),
        }
    }
}

/// What a raw reply says, or that it has no end of head.
pub open spec fn reply_spec(raw: Seq<u8>) -> Option<(u16, Seq<u8>, Seq<char>)> {
    match find(raw, seq![13u8, 10u8, 13u8, 10u8]) {
        Some(sep) => {
            let hl = lines(lossy_utf8(raw.take(sep)));
            Some((status_of(hl), raw.skip(sep + 4), content_type_below(hl, hl.len() as int)))
        },
        None => None,
    }
}

fn lines_exec(s: &[char]) -> (r: Vec<Vec<char>>)
    ensures
        r@.map_values(|l: Vec<char>| l@) == lines(s@),
{
    let mut r: Vec<Vec<char>> = Vec::new();
    let mut rest = slice_chars(s, 0, s.len());
    let nl = vec!['\n'];
    assert(nl@ =~= seq!['\n']);
    assert(rest@ =~= s@);
    assert(r@.map_values(|l: Vec<char>| l@) + lines(rest@) =~= lines(s@));
    loop
        invariant
            nl@ == seq!['\n'],
            r@.map_values(|l: Vec<char>| l@) + lines(rest@) == lines(s@),
        decreases rest@.len(),
    {
        if rest.len() == 0 {
            assert(r@.map_values(|l: Vec<char>| l@) + lines(rest@) =~= r@.map_values(|l: Vec<char>| l@));
            return r;
        }
        match find_chars(&rest, &nl) {
            Some(i) => {
                proof {
                    lemma_find_from_bounds(rest@, nl@, 0);
                }
                let mut line = slice_chars(&rest, 0, i);
                if line.len() > 0 && line[line.len() - 1] == '\r' {
                    let k = line.len() - 1;
                    line = slice_chars(&line, 0, k);
                }
                let next = slice_chars(&rest, i + 1, rest.len());
                let ghost lv = line@;
                let ghost prev = r@.map_values(|l: Vec<char>| l@);
                r.push(line);
                assert(r@.map_values(|l: Vec<char>| l@) =~= prev.push(lv));
                assert(prev.push(lv) + lines(next@) =~= prev + (seq![lv] + lines(next@)));
                rest = next;
            },
            None => {
                let ghost prev = r@.map_values(|l: Vec<char>| l@);
                let ghost rv = rest@;
                r.push(rest);
                assert(r@.map_values(|l: Vec<char>| l@) =~= prev + seq![rv]);
                return r;
            },
        }
    }
}

fn next_token_exec(s: &[char]) -> (r: (Vec<char>, Vec<char>))
    ensures
        (r.0@, r.1@) == next_token(s@),
{
    let mut a: usize = 0;
    assert(s@.skip(0) =~= s@);
    while a < s.len() && is_ws_exec(s[a])
        invariant
            0 <= a <= s@.len(),
            trim_start(s@) == trim_start(s@.skip(a as int)),
        decreases s.len() - a,
    {
        assert(s@.skip(a as int).drop_first() =~= s@.skip(a + 1));
        a = a + 1;
    }
    let t = slice_chars(s, a, s.len());
    assert(t@ == s@.skip(a as int));
    assert(trim_start(t@) == t@);
    let mut b: usize = 0;
    while b < t.len() && !is_ws_exec(t[b])
        invariant
            0 <= b <= t@.len(),
            ws_from(t@, 0) == ws_from(t@, b as int),
        decreases t.len() - b,
    {
        b = b + 1;
    }
    (slice_chars(&t, 0, b), slice_chars(&t, b, t.len()))
}

fn status_exec(hl: &Vec<Vec<char>>) -> (r: u16)
    ensures
        r == status_of(hl@.map_values(|l: Vec<char>| l@)),
{
    if hl.len() == 0 {
        return 0;
    }
    let (t0, r0) = next_token_exec(&hl[0]);
    let (t1, _) = next_token_exec(&r0);
    if t0.len() == 0 || t1.len() == 0 {
        return 0;
    }
    match parse_u16(&t1) {
        Some(v) => v,
        None => 0,
    }
}

fn content_type_exec(hl: &Vec<Vec<char>>) -> (r: Vec<char>)
    ensures
        r@ == content_type_below(hl@.map_values(|l: Vec<char>| l@), hl@.len() as int),
{
    let ghost hv = hl@.map_values(|l: Vec<char>| l@);
    let key = chars_of("content-type");
    let colon = vec![':'];
    assert(colon@ =~= seq![':']);
    let mut n: usize = hl.len();
    while n > 1
        invariant
            0 <= n <= hl@.len(),
            hv == hl@.map_values(|l: Vec<char>| l@),
            key@ == "content-type"@,
            colon@ == seq![':'],
            content_type_below(hv, hl@.len() as int) == content_type_below(hv, n as int),
        decreases n,
    {
        let line = &hl[n - 1];
        match find_chars(line, &colon) {
            Some(c) => {
                proof {
                    lemma_find_from_bounds(line@, colon@, 0);
                    assert(occurs_at(line@, colon@, c as int));
                }
                let ll = line.len();
                let k = trim_chars(&slice_chars(line, 0, c));
                if eq_ignore_ascii_case_exec(&k, &key) {
                    return trim_chars(&slice_chars(line, c + 1, line.len()));
                }
            },
            None => {},
        }
        n = n - 1;
    }
    Vec::new()
}

/// Reads a raw HTTP reply: the head ends at the first blank line; the
/// status is the second word of the first line (0 when unreadable); the
/// last `Content-Type` header gives the content type (empty when absent).
pub fn parse_response(raw: &[u8]) -> (r: Result<HttpReply, String>)
    ensures
        match reply_spec(raw@) {
            Some((status, body, ct)) => r matches Ok(rep) && rep.status == status && rep.body@ == body
                && rep.content_type@ == ct,
            None => r matches Err(e) && e@ == "malformed HTTP response"@,
        },
{
    let sep_bytes: Vec<u8> = vec![13u8, 10u8, 13u8, 10u8];
    assert(sep_bytes@ =~= seq![13u8, 10u8, 13u8, 10u8]);
    let sep = match find_subslice(raw, &sep_bytes) {
        Some(k) => k,
        None => return Err(string_of(&chars_of("malformed HTTP response"))),
    };
    proof {
        lemma_find_from_bounds(raw@, sep_bytes@, 0);
        assert(occurs_at(raw@, sep_bytes@, sep as int));
    }
    let rlen = raw.len();
    assert(sep + 4 <= rlen);
    let head = utf8_lossy(&raw[0..sep]);
    assert(raw@.subrange(0, sep as int) == raw@.take(sep as int));
    let body = vstd::slice::slice_to_vec(&raw[sep + 4..raw.len()]);
    assert(body@ == raw@.skip(sep + 4));
    let hl = lines_exec(&chars_of(head.as_str()));
    let status = status_exec(&hl);
    let ct = content_type_exec(&hl);
    Ok(HttpReply { status, body, content_type: string_of(&ct) })
}

} // verus!

verus! {

fn pair(a: &str, b: &str) -> (r: (String, String))
    ensures
        r.0@ == a@,
        r.1@ == b@,
{
    (a.to_owned(), b.to_owned())
}

/// A `GET` of `url` with the camera's user agent.
pub fn get_call(url: &str) -> (r: HttpCall)
    ensures
        r.method@ == "GET"@,
        r.url@ == url@,
        headers_view(r.headers@) == seq![("User-Agent"@, UA@)],
        r.body is None,
{
    let mut headers: Vec<(String, String)> = Vec::new();
    headers.push(pair("User-Agent", UA));
    assert(headers_view(headers@) =~= seq![("User-Agent"@, UA@)]);
    HttpCall { method: "GET".to_owned(), url: url.to_owned(), headers, body: None }
}

/// The body and content type of a `GET` answered 200 (a missing content
/// type reads as `image/jpeg`), or the failure.
pub open spec fn get_bytes_spec(url: Seq<char>, reply: Result<(u16, Seq<u8>, Seq<char>), Seq<char>>) -> Result<
    (Seq<u8>, Seq<char>),
    Seq<char>,
> {
    match reply {
        Err(e) => Err(e),
        Ok((status, body, ct)) => if status != 200 {
            Err(url + ": HTTP "@ + decimal(status as nat))
        } else if ct.len() == 0 {
            Ok((body, "image/jpeg"@))
        } else {
            Ok((body, ct))
        },
    }
}

pub open spec fn reply_view(r: Result<HttpReply, String>) -> Result<(u16, Seq<u8>, Seq<char>), Seq<char>> {
    match r {
        Ok(rep) => Ok((rep.status, rep.body@, rep.content_type@)),
        Err(e) => Err(e@),
    }
}

pub open spec fn fetched_view(r: Result<(Vec<u8>, String), String>) -> Result<(Seq<u8>, Seq<char>), Seq<char>> {
    match r {
        Ok((b, ct)) => Ok((b@, ct@)),
        Err(e) => Err(e@),
    }
}

/// Requires 200 of the reply to a `GET` of `url`; returns (body, content
/// type), the content type defaulting to JPEG.
pub fn http_get_bytes(url: &str, reply: Result<HttpReply, String>) -> (r: Result<(Vec<u8>, String), String>)
    ensures
        fetched_view(r) == get_bytes_spec(url@, reply_view(reply)),
{
    let rep = match reply {
        Ok(rep) => rep,
        Err(e) => return Err(e),
    };
    if rep.status != 200 {
        let msg = concat(&concat(&chars_of(url), &chars_of(": HTTP ")), &decimal_chars(rep.status as u64));
        return Err(string_of(&msg));
    }
    if rep.content_type.as_str().is_empty() {
        Ok((rep.body, "image/jpeg".to_owned()))
    } else {
        Ok((rep.body, rep.content_type))
    }
}

/// The SOAP envelope of a ContentDirectory `Browse` (BrowseDirectChildren)
/// for children `[start, start+count)` of `object_id`.
pub open spec fn browse_envelope(service_type: Seq<char>, object_id: Seq<char>, start: nat, count: nat) -> Seq<char> {
    "<?xml version=\"1.0\" encoding=\"utf-8\"?><s:Envelope xmlns:s=\"http://schemas.xmlsoap.org/soap/envelope/\" s:encodingStyle=\"http://schemas.xmlsoap.org/soap/encoding/\"><s:Body><u:Browse xmlns:u=\""@
        + service_type + "\"><ObjectID>"@ + object_id
        + "</ObjectID><BrowseFlag>BrowseDirectChildren</BrowseFlag><Filter>*</Filter><StartingIndex>"@
        + decimal(start) + "</StartingIndex><RequestedCount>"@ + decimal(count)
        + "</RequestedCount><SortCriteria></SortCriteria></u:Browse></s:Body></s:Envelope>"@
}

/// The headers of a `Browse` call: the user agent, the SOAP content type
/// and the `SOAPACTION` naming the service's `Browse` action.
pub open spec fn browse_headers(service_type: Seq<char>) -> Seq<(Seq<char>, Seq<char>)> {
    seq![
        ("User-Agent"@, UA@),
        ("Content-Type"@, "text/xml; charset=\"utf-8\""@),
        ("SOAPACTION"@, "\""@ + service_type + "#Browse\""@),
    ]
}

/// The `POST` of a `Browse` to the ContentDirectory control URL.
pub fn soap_browse(
    control_url: &str,
    service_type: &str,
    object_id: &str,
    start: usize,
    count: usize,
) -> (r: HttpCall)
    ensures
        r.method@ == "POST"@,
        r.url@ == control_url@,
        headers_view(r.headers@) == browse_headers(service_type@),
        r.body matches Some(b) && b@ == vstd::utf8::encode_utf8(
            browse_envelope(service_type@, object_id@, start as nat, count as nat),
        ),
{
    let mut env = concat(
        &chars_of(
            "<?xml version=\"1.0\" encoding=\"utf-8\"?><s:Envelope xmlns:s=\"http://schemas.xmlsoap.org/soap/envelope/\" s:encodingStyle=\"http://schemas.xmlsoap.org/soap/encoding/\"><s:Body><u:Browse xmlns:u=\"",
        ),
        &chars_of(service_type),
    );
    env = concat(&env, &chars_of("\"><ObjectID>"));
    env = concat(&env, &chars_of(object_id));
    env = concat(
        &env,
        &chars_of("</ObjectID><BrowseFlag>BrowseDirectChildren</BrowseFlag><Filter>*</Filter><StartingIndex>"),
    );
    env = concat(&env, &decimal_chars(start as u64));
    env = concat(&env, &chars_of("</StartingIndex><RequestedCount>"));
    env = concat(&env, &decimal_chars(count as u64));
    env = concat(
        &env,
        &chars_of("</RequestedCount><SortCriteria></SortCriteria></u:Browse></s:Body></s:Envelope>"),
    );
    let action = concat(&concat(&chars_of("\""), &chars_of(service_type)), &chars_of("#Browse\""));
    let mut headers: Vec<(String, String)> = Vec::new();
    headers.push(pair("User-Agent", UA));
    headers.push(pair("Content-Type", "text/xml; charset=\"utf-8\""));
    headers.push(("SOAPACTION".to_owned(), string_of(&action)));
    assert(headers_view(headers@) =~= seq![
        ("User-Agent"@, UA@),
        ("Content-Type"@, "text/xml; charset=\"utf-8\""@),
        ("SOAPACTION"@, "\""@ + service_type@ + "#Browse\""@),
    ]);
    let body = bytes_of(string_of(&env).as_str());
    HttpCall { method: "POST".to_owned(), url: control_url.to_owned(), headers, body: Some(body) }
}

/// How many times a `Browse` is tried.
pub const BROWSE_ATTEMPTS: u32 = 3;

/// What to do after one `Browse` attempt.
#[derive(Debug)]
pub enum RetryStep {
    /// The attempt's outcome is the answer.
    Finish(Result<Vec<u8>, String>),
    /// Wait `ms` milliseconds; then try again when `retry`, else fail with `last`.
    Wait { ms: u64, retry: bool, last: String },
}

/// After attempt `attempt` (from 0) of a `Browse` of `object_id`: a 200
/// answer is the result; any other answer or failure waits `400 * (attempt
/// + 1)` ms and is tried again, up to `BROWSE_ATTEMPTS` attempts, the last
/// failure being the error.
pub fn browse_retry(object_id: &str, attempt: u32, reply: Result<HttpReply, String>) -> (r: RetryStep)
    requires
        attempt < BROWSE_ATTEMPTS,
    ensures
        match reply {
            Ok(rep) => if rep.status == 200 {
                r matches RetryStep::Finish(Ok(b)) && b == rep.body
            } else {
                r matches RetryStep::Wait { ms, retry, last } && ms == 400 * (attempt + 1) && retry
                    == (attempt + 1 < BROWSE_ATTEMPTS) && last@ == "Browse "@ + object_id@
                    + ": HTTP "@ + decimal(rep.status as nat)
            },
            Err(e) => r matches RetryStep::Wait { ms, retry, last } && ms == 400 * (attempt + 1)
                && retry == (attempt + 1 < BROWSE_ATTEMPTS) && last == e,
        },
{
    let ms: u64 = 400 * (attempt as u64 + 1);
    let retry = attempt + 1 < BROWSE_ATTEMPTS;
    match reply {
        Ok(rep) => {
            if rep.status == 200 {
                RetryStep::Finish(Ok(rep.body))
            } else {
                let msg = concat(
                    &concat(&concat(&chars_of("Browse "), &chars_of(object_id)), &chars_of(": HTTP ")),
                    &decimal_chars(rep.status as u64),
                );
                RetryStep::Wait { ms, retry, last: string_of(&msg) }
            }
        },
        Err(e) => RetryStep::Wait { ms, retry, last: e },
    }
}

} // verus!
