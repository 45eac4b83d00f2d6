//! The gallery's HTTP API, transport-agnostic: which route a request takes,
//! the paging parameters it carries, and the responses, as the server
//! writes them to its socket.

use vstd::prelude::*;
use crate::browse::photos_view;
use crate::decimal::{decimal, decimal_chars, parse_unsigned, parse_usize};
use crate::json::{
    json_bool, json_bool_exec, json_opt_number, json_opt_number_exec, json_opt_string,
    json_opt_string_exec, json_quoted, json_string,
};
use crate::model::{Photo, PhotoView};
use crate::pager::Page;
use crate::state::{StateInfo, opt_view};
use crate::text::{
    before, before_char, chars_of, concat, eq_chars, find, find_chars, lemma_find_from_bounds, occurs_at,
    slice_chars, starts_with, starts_with_chars, string_of, trim, trim_chars,
};

verus! {

/// A transport-agnostic HTTP response.
#[derive(Debug)]
pub struct Response {
    pub status: u16,
    pub content_type: String,
    pub body: Vec<u8>,
    pub content_disposition: Option<String>,
    pub cache_control: Option<String>,
}

/// Proxied media is content-addressed by camera object id, so it is
/// immutable: the browser may cache it.
pub const MEDIA_CACHE_CONTROL: &'static str = "public, max-age=31536000, immutable";

pub fn bytes_of(s: &str) -> (r: Vec<u8>)
    ensures
        r@ == vstd::utf8::encode_utf8(s@),
{
    vstd::slice::slice_to_vec(s.as_bytes())
}

impl Response {
    pub fn new(status: u16, content_type: &str, body: Vec<u8>) -> (r: Response)
        ensures
            r.status == status,
            r.content_type@ == content_type@,
            r.body == body,
            r.content_disposition is None,
            r.cache_control is None,
    {
        Response { status, content_type: content_type.to_owned(), body, content_disposition: None, cache_control: None }
    }

    /// A JSON response with the given JSON text.
    pub fn json(status: u16, text: &str) -> (r: Response)
        ensures
            r.status == status,
            r.content_type@ == "application/json; charset=utf-8"@,
            r.body@ == vstd::utf8::encode_utf8(text@),
            r.content_disposition is None,
            r.cache_control is None,
    {
        Response::new(status, "application/json; charset=utf-8", bytes_of(text))
    }

    /// A plain-text response.
    pub fn text(status: u16, s: &str) -> (r: Response)
        ensures
            r.status == status,
            r.content_type@ == "text/plain; charset=utf-8"@,
            r.body@ == vstd::utf8::encode_utf8(s@),
            r.content_disposition is None,
            r.cache_control is None,
    {
        Response::new(status, "text/plain; charset=utf-8", bytes_of(s))
    }

    /// `404 not found`.
    pub fn not_found() -> (r: Response)
        ensures
            r.status == 404,
            r.content_type@ == "text/plain; charset=utf-8"@,
            r.body@ == vstd::utf8::encode_utf8("not found"@),
            r.content_disposition is None,
            r.cache_control is None,
    {
        Response::text(404, "not found")
    }
}

/// The parts of `s` between the separators `c` (`str::split`).
pub open spec fn segments(s: Seq<char>, c: char) -> Seq<Seq<char>>
    decreases s.len(),
{
    match find(s, seq![c]) {
        Some(i) => if 0 <= i < s.len() {
            seq![s.take(i)] + segments(s.skip(i + 1), c)
        } else {
            seq![s]
        },
        None => seq![s],
    }
}

/// `offset`/`limit` after the query's pairs `kvs[..n]`.
pub open spec fn params_below(kvs: Seq<Seq<char>>, n: int) -> (nat, nat)
    decreases n,
{
    if n <= 0 || n > kvs.len() {
        (0, 60)
    } else {
        let prev = params_below(kvs, n - 1);
        let kv = kvs[n - 1];
        match find(kv, seq!['=']) {
            Some(e) => {
                let k = kv.take(e);
                let v = kv.skip(e + 1);
                if k == "offset"@ {
                    (
                        match parse_unsigned(v, usize::MAX as nat) {
                            Some(x) => x,
                            None => 0,
                        },
                        prev.1,
                    )
                } else if k == "limit"@ {
                    (
                        prev.0,
                        match parse_unsigned(v, usize::MAX as nat) {
                            Some(x) => x,
                            None => 60,
                        },
                    )
                } else {
                    prev
                }
            },
            None => prev,
        }
    }
}

pub open spec fn clamp(x: nat, lo: nat, hi: nat) -> nat {
    if x < lo {
        lo
    } else if x > hi {
        hi
    } else {
        x
    }
}

/// `?offset=&limit=` of a request path (defaults 0 and 60; the limit kept
/// within 1..=500). The query is the text between the first and second `?`.
pub open spec fn page_params_spec(raw_path: Seq<char>) -> (nat, nat) {
    let parts = segments(raw_path, '?');
    let p = if parts.len() > 1 {
        let kvs = segments(parts[1], '&');
        params_below(kvs, kvs.len() as int)
    } else {
        (0, 60)
    };
    (p.0, clamp(p.1, 1, 500))
}

fn segments_exec(s: &[char], c: char) -> (r: Vec<Vec<char>>)
    ensures
        r@.map_values(|l: Vec<char>| l@) == segments(s@, c),
        r@.len() >= 1,
{
    let mut r: Vec<Vec<char>> = Vec::new();
    let mut rest = slice_chars(s, 0, s.len());
    let pat = vec![c];
    assert(pat@ =~= seq![c]);
    assert(rest@ =~= s@);
    assert(r@.map_values(|l: Vec<char>| l@) + segments(rest@, c) =~= segments(s@, c));
    loop
        invariant
            pat@ == seq![c],
            r@.map_values(|l: Vec<char>| l@) + segments(rest@, c) == segments(s@, c),
        decreases rest@.len(),
    {
        match find_chars(&rest, &pat) {
            Some(i) => {
                proof {
                    lemma_find_from_bounds(rest@, pat@, 0);
                    assert(occurs_at(rest@, pat@, i as int));
                }
                let rl = rest.len();
                let part = slice_chars(&rest, 0, i);
                let next = slice_chars(&rest, i + 1, rl);
                let ghost pv = part@;
                let ghost prev = r@.map_values(|l: Vec<char>| l@);
                r.push(part);
                assert(r@.map_values(|l: Vec<char>| l@) =~= prev.push(pv));
                assert(prev.push(pv) + segments(next@, c) =~= prev + (seq![pv] + segments(next@, c)));
                rest = next;
            },
            None => {
                let ghost prev = r@.map_values(|l: Vec<char>| l@);
                let ghost rv = rest@;
                r.push(rest);
                assert(r@.map_values(|l: Vec<char>| l@) =~= prev + seq![rv]);
                return r;
            },
        }
    }
}

/// Parses `?offset=&limit=` (defaults 0 / 60, limit clamped to [1, 500]).
pub fn parse_page_params(raw_path: &str) -> (r: (usize, usize))
    ensures
        (r.0 as nat, r.1 as nat) == page_params_spec(raw_path@),
{
    let parts = segments_exec(&chars_of(raw_path), '?');
    let mut offset: usize = 0;
    let mut limit: usize = 60;
    if parts.len() > 1 {
        let kvs = segments_exec(&parts[1], '&');
        let ghost kv = kvs@.map_values(|l: Vec<char>| l@);
        let eq = vec!['='];
        assert(eq@ =~= seq!['=']);
        let off_key = chars_of("offset");
        let lim_key = chars_of("limit");
        let mut i: usize = 0;
        while i < kvs.len()
            invariant
                0 <= i <= kvs@.len(),
                kv == kvs@.map_values(|l: Vec<char>| l@),
                eq@ == seq!['='],
                off_key@ == "offset"@,
                lim_key@ == "limit"@,
                (offset as nat, limit as nat) == params_below(kv, i as int),
            decreases kvs.len() - i,
        {
            let item = &kvs[i];
            match find_chars(item, &eq) {
                Some(e) => {
                    proof {
                        lemma_find_from_bounds(item@, eq@, 0);
                        assert(occurs_at(item@, eq@, e as int));
                    }
                    let il = item.len();
                    let k = slice_chars(item, 0, e);
                    let v = slice_chars(item, e + 1, il);
                    if eq_chars(&k, &off_key) {
                        offset = match parse_usize(&v) {
                            Some(x) => x,
                            None => 0,
                        };
                    } else if eq_chars(&k, &lim_key) {
                        limit = match parse_usize(&v) {
                            Some(x) => x,
                            None => 60,
                        };
                    }
                },
                None => {},
            }
            i = i + 1;
        }
    }
    let clamped = if limit < 1 {
        1
    } else if limit > 500 {
        500
    } else {
        limit
    };
    (offset, clamped)
}

/// Whatever the query says, a page holds between 1 and 500 photos.
pub proof fn law_page_limit_is_bounded(raw_path: Seq<char>)
    ensures
        1 <= page_params_spec(raw_path).1 <= 500,
{
}

/// Where a request goes.
#[derive(Debug)]
pub enum Route {
    State,
    Connect,
    List { offset: usize, limit: usize },
    Thumb(String),
    Photo(String),
    Asset(String),
    NotFound,
}

/// The asset a path names: `index.html` for `/`, else the path without its
/// leading slashes.
pub open spec fn asset_name_spec(path: Seq<char>) -> Seq<char>
    decreases path.len(),
{
    if path == "/"@ {
        "index.html"@
    } else {
        strip_slashes(path)
    }
}

pub open spec fn strip_slashes(p: Seq<char>) -> Seq<char>
    decreases p.len(),
{
    if p.len() > 0 && p[0] == '/' {
        strip_slashes(p.drop_first())
    } else {
        p
    }
}

pub fn asset_name(path: &str) -> (r: String)
    ensures
        r@ == asset_name_spec(path@),
{
    let p = chars_of(path);
    if eq_chars(&p, &chars_of("/")) {
        return "index.html".to_owned();
    }
    let mut i: usize = 0;
    assert(p@.skip(0) =~= p@);
    while i < p.len() && p[i] == '/'
        invariant
            0 <= i <= p@.len(),
            strip_slashes(p@) == strip_slashes(p@.skip(i as int)),
        decreases p.len() - i,
    {
        assert(p@.skip(i as int).drop_first() =~= p@.skip(i + 1));
        i = i + 1;
    }
    let rest = slice_chars(&p, i, p.len());
    assert(rest@ == p@.skip(i as int));
    string_of(&rest)
}

pub enum RouteView {
    State,
    Connect,
    List { offset: nat, limit: nat },
    Thumb(Seq<char>),
    Photo(Seq<char>),
    Asset(Seq<char>),
    NotFound,
}

/// Routing: on the path before any `?`.
pub open spec fn route_spec(method: Seq<char>, raw_path: Seq<char>) -> RouteView {
    let path = before(raw_path, '?');
    if method == "GET"@ && path == "/api/state"@ {
        RouteView::State
    } else if method == "POST"@ && path == "/api/connect"@ {
        RouteView::Connect
    } else if method == "GET"@ && path == "/api/list"@ {
        let (o, l) = page_params_spec(raw_path);
        RouteView::List { offset: o, limit: l }
    } else if method == "GET"@ && starts_with(path, "/api/thumb/"@) {
        RouteView::Thumb(path.skip("/api/thumb/"@.len() as int))
    } else if method == "GET"@ && starts_with(path, "/api/photo/"@) {
        RouteView::Photo(path.skip("/api/photo/"@.len() as int))
    } else if method == "GET"@ {
        RouteView::Asset(asset_name_spec(path))
    } else {
        RouteView::NotFound
    }
}

pub open spec fn route_view(r: Route) -> RouteView {
    match r {
        Route::State => RouteView::State,
        Route::Connect => RouteView::Connect,
        Route::List { offset, limit } => RouteView::List { offset: offset as nat, limit: limit as nat },
        Route::Thumb(s) => RouteView::Thumb(s@),
        Route::Photo(s) => RouteView::Photo(s@),
        Route::Asset(s) => RouteView::Asset(s@),
        Route::NotFound => RouteView::NotFound,
    }
}

/// Routes one request.
pub fn route(method: &str, raw_path: &str) -> (r: Route)
    ensures
        route_view(r) == route_spec(method@, raw_path@),
{
    let m = chars_of(method);
    let path = before_char(&chars_of(raw_path), '?');
    let get = eq_chars(&m, &chars_of("GET"));
    if get && eq_chars(&path, &chars_of("/api/state")) {
        return Route::State;
    }
    if eq_chars(&m, &chars_of("POST")) && eq_chars(&path, &chars_of("/api/connect")) {
        return Route::Connect;
    }
    if get && eq_chars(&path, &chars_of("/api/list")) {
        let (offset, limit) = parse_page_params(raw_path);
        return Route::List { offset, limit };
    }
    let thumb = chars_of("/api/thumb/");
    if get && starts_with_chars(&path, &thumb) {
        return Route::Thumb(string_of(&slice_chars(&path, thumb.len(), path.len())));
    }
    let photo = chars_of("/api/photo/");
    if get && starts_with_chars(&path, &photo) {
        return Route::Photo(string_of(&slice_chars(&path, photo.len(), path.len())));
    }
    if get {
        return Route::Asset(asset_name(string_of(&path).as_str()));
    }
    Route::NotFound
}

} // verus!

verus! {

/// `{"connected":…,"error":…,"host":…,"photoCount":…}`.
pub open spec fn state_json_spec(info: StateInfo) -> Seq<char> {
    "{\"connected\":"@ + json_bool(info.connected) + ",\"error\":"@ + json_opt_string(opt_view(info.error))
        + ",\"host\":"@ + json_opt_string(opt_view(info.host)) + ",\"photoCount\":"@ + decimal(
        info.photo_count as nat,
    ) + "}"@
}

/// The connection state as JSON.
pub fn state_json(info: &StateInfo) -> (r: String)
    ensures
        r@ == state_json_spec(*info),
{
    let mut s = concat(&chars_of("{\"connected\":"), &json_bool_exec(info.connected));
    s = concat(&s, &chars_of(",\"error\":"));
    s = concat(&s, &json_opt_string_exec(&info.error));
    s = concat(&s, &chars_of(",\"host\":"));
    s = concat(&s, &json_opt_string_exec(&info.host));
    s = concat(&s, &chars_of(",\"photoCount\":"));
    s = concat(&s, &decimal_chars(info.photo_count as u64));
    s = concat(&s, &chars_of("}"));
    string_of(&s)
}

/// One listed photo; its media URLs carry `?v=<gen>` so that the browser's
/// cache is busted when the source changes.
pub open spec fn photo_json_spec(p: PhotoView, gen: u64) -> Seq<char> {
    let v = "?v="@ + decimal(gen as nat);
    "{\"date\":"@ + json_quoted(p.date) + ",\"fullUrl\":"@ + json_quoted("/api/photo/"@ + p.id + v)
        + ",\"id\":"@ + json_quoted(p.id) + ",\"name\":"@ + json_quoted(p.name) + ",\"thumbUrl\":"@
        + json_quoted("/api/thumb/"@ + p.id + v) + "}"@
}

/// The photo objects of `photos[..n]`, comma-separated.
pub open spec fn photos_json(photos: Seq<PhotoView>, gen: u64, n: int) -> Seq<char>
    decreases n,
{
    if n <= 0 || n > photos.len() {
        Seq::empty()
    } else if n == 1 {
        photo_json_spec(photos[0], gen)
    } else {
        photos_json(photos, gen, n - 1) + ","@ + photo_json_spec(photos[n - 1], gen)
    }
}

/// `{"hasMore":…,"photos":[…],"total":…}`.
pub open spec fn page_json_spec(photos: Seq<PhotoView>, total: Option<usize>, has_more: bool, gen: u64) -> Seq<char> {
    "{\"hasMore\":"@ + json_bool(has_more) + ",\"photos\":["@ + photos_json(photos, gen, photos.len() as int)
        + "],\"total\":"@ + json_opt_number(total) + "}"@
}

fn quoted(s: &[char]) -> (r: Vec<char>)
    ensures
        r@ == json_quoted(s@),
{
    chars_of(json_string(string_of(s).as_str()).as_str())
}

fn photo_json(p: &Photo, gen: u64) -> (r: Vec<char>)
    ensures
        r@ == photo_json_spec(p@, gen),
{
    let id = chars_of(p.id.as_str());
    let v = concat(&chars_of("?v="), &decimal_chars(gen));
    let full = concat(&concat(&chars_of("/api/photo/"), &id), &v);
    let thumb = concat(&concat(&chars_of("/api/thumb/"), &id), &v);
    let mut s = concat(&chars_of("{\"date\":"), &quoted(&chars_of(p.date.as_str())));
    s = concat(&s, &chars_of(",\"fullUrl\":"));
    s = concat(&s, &quoted(&full));
    s = concat(&s, &chars_of(",\"id\":"));
    s = concat(&s, &quoted(&id));
    s = concat(&s, &chars_of(",\"name\":"));
    s = concat(&s, &quoted(&chars_of(p.name.as_str())));
    s = concat(&s, &chars_of(",\"thumbUrl\":"));
    s = concat(&s, &quoted(&thumb));
    concat(&s, &chars_of("}"))
}

/// A page of photos as JSON, media URLs carrying source generation `gen`.
pub fn page_json(page: &Page, gen: u64) -> (r: String)
    ensures
        r@ == page_json_spec(photos_view(page.photos@), page.total, page.has_more, gen),
{
    let ghost pv = photos_view(page.photos@);
    let mut items: Vec<char> = Vec::new();
    let mut i: usize = 0;
    while i < page.photos.len()
        invariant
            0 <= i <= page.photos@.len(),
            pv == photos_view(page.photos@),
            items@ == photos_json(pv, gen, i as int),
        decreases page.photos.len() - i,
    {
        let one = photo_json(&page.photos[i], gen);
        if i == 0 {
            items = one;
        } else {
            items = concat(&concat(&items, &chars_of(",")), &one);
        }
        i = i + 1;
    }
    let mut s = concat(&chars_of("{\"hasMore\":"), &json_bool_exec(page.has_more));
    s = concat(&s, &chars_of(",\"photos\":["));
    s = concat(&s, &items);
    s = concat(&s, &chars_of("],\"total\":"));
    s = concat(&s, &json_opt_number_exec(page.total));
    s = concat(&s, &chars_of("}"));
    string_of(&s)
}

/// `{"error":…}`.
pub open spec fn error_json_spec(e: Seq<char>) -> Seq<char> {
    "{\"error\":"@ + json_quoted(e) + "}"@
}

pub fn error_json(e: &str) -> (r: String)
    ensures
        r@ == error_json_spec(e@),
{
    string_of(&concat(&concat(&chars_of("{\"error\":"), &quoted(&chars_of(e))), &chars_of("}")))
}

/// `GET /api/state`: 200 with the state.
pub fn state_response(info: &StateInfo) -> (r: Response)
    ensures
        r.status == 200,
        r.content_type@ == "application/json; charset=utf-8"@,
        r.body@ == vstd::utf8::encode_utf8(state_json_spec(*info)),
        r.content_disposition is None,
        r.cache_control is None,
{
    Response::json(200, state_json(info).as_str())
}

/// `POST /api/connect`: 200 with the new state, or 502 with the current
/// state (whose error tells what went wrong).
pub fn connect_response(result: &Result<StateInfo, String>, current: &StateInfo) -> (r: Response)
    ensures
        r.content_type@ == "application/json; charset=utf-8"@,
        r.content_disposition is None,
        r.cache_control is None,
        match result {
            Ok(info) => r.status == 200 && r.body@ == vstd::utf8::encode_utf8(state_json_spec(*info)),
            Err(_) => r.status == 502 && r.body@ == vstd::utf8::encode_utf8(state_json_spec(*current)),
        },
{
    match result {
        Ok(info) => Response::json(200, state_json(info).as_str()),
        Err(_) => Response::json(502, state_json(current).as_str()),
    }
}

/// `GET /api/list`: 200 with the page, or 503 with the error.
pub fn list_response(result: &Result<Page, String>, gen: u64) -> (r: Response)
    ensures
        r.content_type@ == "application/json; charset=utf-8"@,
        r.content_disposition is None,
        r.cache_control is None,
        match result {
            Ok(p) => r.status == 200 && r.body@ == vstd::utf8::encode_utf8(
                page_json_spec(photos_view(p.photos@), p.total, p.has_more, gen),
            ),
            Err(e) => r.status == 503 && r.body@ == vstd::utf8::encode_utf8(error_json_spec(e@)),
        },
{
    match result {
        Ok(p) => Response::json(200, page_json(p, gen).as_str()),
        Err(e) => Response::json(503, error_json(e.as_str()).as_str()),
    }
}

pub open spec fn fetched_view(r: Result<(Vec<u8>, String), String>) -> Result<(Seq<u8>, Seq<char>), Seq<char>> {
    match r {
        Ok((b, ct)) => Ok((b@, ct@)),
        Err(e) => Err(e@),
    }
}

/// A proxied image: 200 with its bytes and type, cacheable, and for the
/// full-size route an attachment named after the photo; an upstream
/// failure is 502.
pub fn proxy_response(photo: &Photo, fetched: Result<(Vec<u8>, String), String>, full: bool) -> (r: Response)
    ensures
        match fetched_view(fetched) {
            Ok((bytes, ct)) => {
                &&& r.status == 200
                &&& r.content_type@ == ct
                &&& r.body@ == bytes
                &&& r.cache_control matches Some(c) && c@ == MEDIA_CACHE_CONTROL@
                &&& if full {
                    r.content_disposition matches Some(d) && d@ == "attachment; filename=\""@ + photo.name@ + "\""@
                } else {
                    r.content_disposition is None
                }
            },
            Err(e) => {
                &&& r.status == 502
                &&& r.content_type@ == "text/plain; charset=utf-8"@
                &&& r.body@ == vstd::utf8::encode_utf8("upstream error: "@ + e)
                &&& r.content_disposition is None
                &&& r.cache_control is None
            },
        },
{
    match fetched {
        Ok((bytes, content_type)) => {
            let mut r = Response::new(200, content_type.as_str(), bytes);
            r.cache_control = Some(MEDIA_CACHE_CONTROL.to_owned());
            if full {
                let d = concat(
                    &concat(&chars_of("attachment; filename=\""), &chars_of(photo.name.as_str())),
                    &chars_of("\""),
                );
                r.content_disposition = Some(string_of(&d));
            }
            r
        },
        Err(e) => {
            let msg = string_of(&concat(&chars_of("upstream error: "), &chars_of(e.as_str())));
            Response::text(502, msg.as_str())
        },
    }
}

/// A web asset: 200 with its bytes and type, else 404.
pub fn asset_response(found: Option<(Vec<u8>, String)>) -> (r: Response)
    ensures
        match found {
            Some((bytes, ct)) => r.status == 200 && r.content_type@ == ct@ && r.body == bytes
                && r.content_disposition is None && r.cache_control is None,
            None => r.status == 404 && r.content_type@ == "text/plain; charset=utf-8"@ && r.body@
                == vstd::utf8::encode_utf8("not found"@) && r.content_disposition is None && r.cache_control is None,
        },
{
    match found {
        Some((bytes, content_type)) => Response::new(200, content_type.as_str(), bytes),
        None => Response::not_found(),
    }
}

/// Supplies the embedded web bundle.
pub trait AssetSource: Send + Sync {
    /// The bytes and content type of a normalized asset name (`index.html`,
    /// `assets/app.js`), or `None` if there is no such asset.
    fn get(&self, name: &str) -> Option<(Vec<u8>, String)>;
}

/// Serves the web asset that a `GET` of `path` names (`index.html` for
/// `/`): 200 with what `assets` holds under that name, else 404.
pub fn serve_asset<A: AssetSource>(assets: &A, path: &str) -> (r: Response)
    ensures
        r.status == 200 || (r.status == 404 && r.body@ == vstd::utf8::encode_utf8("not found"@)),
        r.content_disposition is None,
        r.cache_control is None,
{
    let name = asset_name(path);
    asset_response(assets.get(name.as_str()))
}

/// The content type of a web asset, by the text after its last `.`.
pub open spec fn asset_content_type_spec(name: Seq<char>) -> Seq<char> {
    let ext = match crate::text::rfind(name, seq!['.']) {
        Some(i) => name.skip(i + 1),
        None => name,
    };
    if ext == "html"@ {
        "text/html; charset=utf-8"@
    } else if ext == "js"@ || ext == "mjs"@ {
        "text/javascript; charset=utf-8"@
    } else if ext == "css"@ {
        "text/css; charset=utf-8"@
    } else if ext == "svg"@ {
        "image/svg+xml"@
    } else if ext == "json"@ {
        "application/json"@
    } else if ext == "png"@ {
        "image/png"@
    } else if ext == "jpg"@ || ext == "jpeg"@ {
        "image/jpeg"@
    } else if ext == "ico"@ {
        "image/x-icon"@
    } else if ext == "woff2"@ {
        "font/woff2"@
    } else {
        "application/octet-stream"@
    }
}

pub fn asset_content_type(name: &str) -> (r: String)
    ensures
        r@ == asset_content_type_spec(name@),
{
    let n = chars_of(name);
    let dot = vec!['.'];
    assert(dot@ =~= seq!['.']);
    let ext = match crate::text::rfind_chars(&n, &dot) {
        Some(i) => {
            proof {
                crate::text::lemma_rfind_bounds(n@, dot@, n@.len() + 1int);
                assert(occurs_at(n@, dot@, i as int));
            }
            let ln = n.len();
            slice_chars(&n, i + 1, ln)
        },
        None => n,
    };
    let ct = if eq_chars(&ext, &chars_of("html")) {
        "text/html; charset=utf-8"
    } else if eq_chars(&ext, &chars_of("js")) || eq_chars(&ext, &chars_of("mjs")) {
        "text/javascript; charset=utf-8"
    } else if eq_chars(&ext, &chars_of("css")) {
        "text/css; charset=utf-8"
    } else if eq_chars(&ext, &chars_of("svg")) {
        "image/svg+xml"
    } else if eq_chars(&ext, &chars_of("json")) {
        "application/json"
    } else if eq_chars(&ext, &chars_of("png")) {
        "image/png"
    } else if eq_chars(&ext, &chars_of("jpg")) || eq_chars(&ext, &chars_of("jpeg")) {
        "image/jpeg"
    } else if eq_chars(&ext, &chars_of("ico")) {
        "image/x-icon"
    } else if eq_chars(&ext, &chars_of("woff2")) {
        "font/woff2"
    } else {
        "application/octet-stream"
    };
    ct.to_owned()
}

/// The string field `key` of a JSON object in `body`, when `body` is JSON
/// that serde_json reads, is an object, and holds a string under `key`.
pub uninterp spec fn json_str_field(body: Seq<u8>, key: Seq<char>) -> Option<Seq<char>>;

/// `serde_json::from_slice::<Value>(body)`, then `.get(key)` and
/// `.as_str()`. Claimed: the result is `json_str_field(body, key)`. What
/// serde_json accepts as JSON is left to the name.
#[verifier::external_body]
fn str_field(body: &[u8], key: &str) -> (r: Option<String>)
    ensures
        match json_str_field(body@, key@) {
            Some(h) => r matches Some(s) && s@ == h,
            None => r is None,
        },
{
    serde_json::from_slice::<serde_json::Value>(body).ok()?.get(key)?.as_str().map(|s| s.to_owned())
}

/// The host a connect request names: the body's JSON `host` string, unless
/// it is blank (then discovery is asked for).
pub fn parse_connect_host(body: &[u8]) -> (r: Option<String>)
    ensures
        match json_str_field(body@, "host"@) {
            Some(h) => if trim(h).len() > 0 {
                r matches Some(s) && s@ == h
            } else {
                r is None
            },
            None => r is None,
        },
{
    match str_field(body, "host") {
        Some(h) => {
            if trim_chars(&chars_of(h.as_str())).len() > 0 {
                Some(h)
            } else {
                None
            }
        },
        None => None,
    }
}

} // verus!

verus! {

/// `vs` joined with commas.
pub open spec fn json_join(vs: Seq<Seq<char>>, n: int) -> Seq<char>
    decreases n,
{
    if n <= 0 || n > vs.len() {
        Seq::empty()
    } else if n == 1 {
        vs[0]
    } else {
        json_join(vs, n - 1) + seq![','] + vs[n - 1]
    }
}

/// One object member: the key as a string, a colon, the value's text.
pub open spec fn json_member(m: (Seq<char>, Seq<char>)) -> Seq<char> {
    seq!['"'] + m.0 + seq!['"', ':'] + m.1
}

/// A JSON object with the members `ms`, in order.
pub open spec fn json_object(ms: Seq<(Seq<char>, Seq<char>)>) -> Seq<char> {
    seq!['{'] + json_join(ms.map_values(|m: (Seq<char>, Seq<char>)| json_member(m)), ms.len() as int) + seq!['}']
}

/// A JSON array of the values `vs`.
pub open spec fn json_array(vs: Seq<Seq<char>>) -> Seq<char> {
    seq!['['] + json_join(vs, vs.len() as int) + seq![']']
}

/// The value of the member named `key`, the first one if several.
pub open spec fn member_value(ms: Seq<(Seq<char>, Seq<char>)>, key: Seq<char>) -> Option<Seq<char>>
    decreases ms.len(),
{
    if ms.len() == 0 {
        None
    } else if ms[0].0 == key {
        Some(ms[0].1)
    } else {
        member_value(ms.drop_first(), key)
    }
}

/// Object members whose keys are plain (no quote in them) and distinct, so
/// that the object text names each member once.
pub open spec fn plain_members(ms: Seq<(Seq<char>, Seq<char>)>) -> bool {
    &&& ms.map_values(|m: (Seq<char>, Seq<char>)| m.0).no_duplicates()
    &&& forall|i: int, j: int| 0 <= i < ms.len() && 0 <= j < ms[i].0.len() ==> ms[i].0[j] != '"'
}

/// `o` is the JSON object of photo `p`: among its members, each named once,
/// `id`, `name` and `date` hold the photo's own id, name and date as JSON
/// strings.
pub open spec fn is_photo_object(o: Seq<char>, p: PhotoView) -> bool {
    exists|ms: Seq<(Seq<char>, Seq<char>)>|
        #![trigger json_object(ms)]
        o == json_object(ms) && plain_members(ms) && member_value(ms, "id"@) == Some(json_quoted(p.id))
            && member_value(ms, "name"@) == Some(json_quoted(p.name)) && member_value(ms, "date"@) == Some(
            json_quoted(p.date),
        )
}

proof fn lemma_key_literals()
    ensures
        "date"@ == seq!['d', 'a', 't', 'e'],
        "fullUrl"@ == seq!['f', 'u', 'l', 'l', 'U', 'r', 'l'],
        "id"@ == seq!['i', 'd'],
        "name"@ == seq!['n', 'a', 'm', 'e'],
        "thumbUrl"@ == seq!['t', 'h', 'u', 'm', 'b', 'U', 'r', 'l'],
        "hasMore"@ == seq!['h', 'a', 's', 'M', 'o', 'r', 'e'],
        "photos"@ == seq!['p', 'h', 'o', 't', 'o', 's'],
        "total"@ == seq!['t', 'o', 't', 'a', 'l'],
{
    reveal_strlit("date");
    reveal_strlit("fullUrl");
    reveal_strlit("id");
    reveal_strlit("name");
    reveal_strlit("thumbUrl");
    reveal_strlit("hasMore");
    reveal_strlit("photos");
    reveal_strlit("total");
}

/// Each listed photo is rendered as its own JSON object: a member `id`,
/// `name` and `date` each, holding that photo's id, name and date.
pub proof fn law_photo_json_is_its_object(p: PhotoView, gen: u64)
    ensures
        is_photo_object(photo_json_spec(p, gen), p),
{
    lemma_key_literals();
    reveal_strlit("{\"date\":");
    reveal_strlit(",\"fullUrl\":");
    reveal_strlit(",\"id\":");
    reveal_strlit(",\"name\":");
    reveal_strlit(",\"thumbUrl\":");
    reveal_strlit("}");
    let v = "?v="@ + decimal(gen as nat);
    let ms = seq![
        ("date"@, json_quoted(p.date)),
        ("fullUrl"@, json_quoted("/api/photo/"@ + p.id + v)),
        ("id"@, json_quoted(p.id)),
        ("name"@, json_quoted(p.name)),
        ("thumbUrl"@, json_quoted("/api/thumb/"@ + p.id + v)),
    ];
    let parts = ms.map_values(|m: (Seq<char>, Seq<char>)| json_member(m));
    reveal_with_fuel(json_join, 6);
    assert(json_join(parts, 5) == parts[0] + seq![','] + parts[1] + seq![','] + parts[2] + seq![','] + parts[3]
        + seq![','] + parts[4]);
    assert(photo_json_spec(p, gen) =~= json_object(ms));
    let keys = ms.map_values(|m: (Seq<char>, Seq<char>)| m.0);
    assert(keys.no_duplicates()) by {
        assert forall|i: int, j: int| 0 <= i < keys.len() && 0 <= j < keys.len() && i != j implies keys[i]
            != keys[j] by {
            if keys[i] == keys[j] {
                assert(keys[i].len() == keys[j].len());
                assert(keys[i][0] == keys[j][0]);
            }
        }
    }
    reveal_with_fuel(member_value, 6);
    assert(ms.drop_first()[0].0 == "fullUrl"@);
    assert(member_value(ms, "id"@) == Some(json_quoted(p.id))) by {
        assert("date"@ != "id"@);
        assert("fullUrl"@ != "id"@);
        assert(ms.drop_first().drop_first() =~= ms.subrange(2, 5));
    }
    assert(member_value(ms, "name"@) == Some(json_quoted(p.name))) by {
        assert("date"@[0] != "name"@[0]);
        assert("fullUrl"@ != "name"@);
        assert("id"@ != "name"@);
        assert(ms.drop_first().drop_first() =~= ms.subrange(2, 5));
        assert(ms.drop_first().drop_first().drop_first() =~= ms.subrange(3, 5));
    }
    assert(is_photo_object(photo_json_spec(p, gen), p));
}

} // verus!

verus! {

proof fn lemma_photos_json_join(photos: Seq<PhotoView>, gen: u64, objs: Seq<Seq<char>>, n: int)
    requires
        objs.len() == photos.len(),
        forall|k: int| 0 <= k < photos.len() ==> #[trigger] objs[k] == photo_json_spec(photos[k], gen),
        0 <= n <= photos.len(),
    ensures
        photos_json(photos, gen, n) == json_join(objs, n),
    decreases n,
{
    reveal_strlit(",");
    if n > 1 {
        lemma_photos_json_join(photos, gen, objs, n - 1);
        assert(","@ == seq![',']);
    }
}

#[verifier::rlimit(40)]
proof fn lemma_page_json_object(photos: Seq<PhotoView>, total: Option<usize>, has_more: bool, gen: u64, objs: Seq<Seq<char>>)
    requires
        photos_json(photos, gen, photos.len() as int) == json_join(objs, objs.len() as int),
    ensures
        page_json_spec(photos, total, has_more, gen) == json_object(
            seq![
                ("hasMore"@, json_bool(has_more)),
                ("photos"@, json_array(objs)),
                ("total"@, json_opt_number(total)),
            ],
        ),
{
    lemma_key_literals();
    reveal_strlit("{\"hasMore\":");
    reveal_strlit(",\"photos\":[");
    reveal_strlit("],\"total\":");
    reveal_strlit("}");
    let ms = seq![
        ("hasMore"@, json_bool(has_more)),
        ("photos"@, json_array(objs)),
        ("total"@, json_opt_number(total)),
    ];
    let parts = ms.map_values(|m: (Seq<char>, Seq<char>)| json_member(m));
    reveal_with_fuel(json_join, 4);
    assert(json_join(parts, 3) == parts[0] + seq![','] + parts[1] + seq![','] + parts[2]);
    assert(page_json_spec(photos, total, has_more, gen) =~= json_object(ms));
}

/// A listed page's JSON is an object of `hasMore`, `photos` and `total`,
/// whose `photos` array holds, in order, one object per listed photo with
/// that photo's own id, name and date.
pub proof fn law_page_json_lists_each_photo(
    photos: Seq<PhotoView>,
    total: Option<usize>,
    has_more: bool,
    gen: u64,
)
    ensures
        exists|objs: Seq<Seq<char>>|
            #![trigger json_array(objs)]
            {
                &&& objs.len() == photos.len()
                &&& page_json_spec(photos, total, has_more, gen) == json_object(
                    seq![
                        ("hasMore"@, json_bool(has_more)),
                        ("photos"@, json_array(objs)),
                        ("total"@, json_opt_number(total)),
                    ],
                )
                &&& forall|k: int| 0 <= k < photos.len() ==> is_photo_object(#[trigger] objs[k], photos[k])
            },
{
    let objs = Seq::new(photos.len(), |k: int| photo_json_spec(photos[k], gen));
    lemma_photos_json_join(photos, gen, objs, photos.len() as int);
    lemma_page_json_object(photos, total, has_more, gen, objs);
    assert forall|k: int| 0 <= k < photos.len() implies is_photo_object(#[trigger] objs[k], photos[k]) by {
        law_photo_json_is_its_object(photos[k], gen);
    }
    assert(json_array(objs) == json_array(objs));
}

} // verus!
