use camera_portal::api::{
    asset_content_type, asset_name, asset_response, connect_response, list_response, parse_connect_host,
    parse_page_params, proxy_response, route, serve_asset, state_response, AssetSource, Response, Route,
    MEDIA_CACHE_CONTROL,
};
use camera_portal::state::{AppState, FetchStep, ListStep, Source};

struct DummyAssets;

impl AssetSource for DummyAssets {
    fn get(&self, name: &str) -> Option<(Vec<u8>, String)> {
        if name == "index.html" {
            Some((b"<html>gallery</html>".to_vec(), "text/html".to_string()))
        } else {
            None
        }
    }
}

/// Routes one request against `state` the way the server does, for the
/// sources that need no network.
fn handle(state: &mut AppState, method: &str, path: &str) -> Response {
    match route(method, path) {
        Route::State => state_response(&state.info()),
        Route::Connect => Response::not_found(),
        Route::List { offset, limit } => match state.list_page(offset, limit) {
            ListStep::Done(result) => list_response(&result, state.source_gen()),
            ListStep::Browse { .. } => panic!("a camera source needs the network"),
        },
        Route::Thumb(id) | Route::Photo(id) => {
            let full = path.starts_with("/api/photo/");
            let photo = match state.photo(&id) {
                Some(p) => p,
                None => return Response::not_found(),
            };
            let step = if full { state.fetch_full(&photo) } else { state.fetch_thumb(&photo) };
            match step {
                FetchStep::Done(fetched) => proxy_response(&photo, fetched, full),
                other => panic!("unexpected {:?}", other),
            }
        }
        Route::Asset(name) => asset_response(DummyAssets.get(&name)),
        Route::NotFound => Response::not_found(),
    }
}

fn req(state: &mut AppState, method: &str, path: &str) -> Response {
    handle(state, method, path)
}

fn json(r: &Response) -> serde_json::Value {
    serde_json::from_slice(&r.body).unwrap()
}

#[test]
fn state_disconnected() {
    let r = req(&mut AppState::new(), "GET", "/api/state");
    assert_eq!(r.status, 200);
    let v = json(&r);
    assert_eq!(v["connected"], false);
    assert!(v["host"].is_null());
}

#[test]
fn list_disconnected_is_503() {
    let r = req(&mut AppState::new(), "GET", "/api/list");
    assert_eq!(r.status, 503);
    let v = json(&r);
    assert!(v["error"].is_string());
    assert_eq!(v["error"], "not connected");
}

#[test]
fn mock_list_has_proxied_urls() {
    let mut state = AppState::with_mock(3);
    let r = req(&mut state, "GET", "/api/list");
    assert_eq!(r.status, 200);
    let v = json(&r);
    let arr = v["photos"].as_array().unwrap();
    assert_eq!(arr.len(), 3);
    assert_eq!(v["total"], 3);
    assert_eq!(v["hasMore"], false);
    let id = arr[0]["id"].as_str().unwrap();
    assert!(arr[0]["thumbUrl"]
        .as_str()
        .unwrap()
        .starts_with(&format!("/api/thumb/{id}?v=")));
    assert!(arr[0]["fullUrl"]
        .as_str()
        .unwrap()
        .starts_with(&format!("/api/photo/{id}?v=")));
}

#[test]
fn paginates_without_overlap() {
    let mut state = AppState::with_mock(10);
    let p1 = json(&req(&mut state, "GET", "/api/list?offset=0&limit=4"));
    assert_eq!(p1["photos"].as_array().unwrap().len(), 4);
    assert_eq!(p1["total"], 10);
    assert_eq!(p1["hasMore"], true);

    let p_last = json(&req(&mut state, "GET", "/api/list?offset=8&limit=4"));
    assert_eq!(p_last["photos"].as_array().unwrap().len(), 2);
    assert_eq!(p_last["hasMore"], false);
    assert_ne!(p1["photos"][0]["id"], p_last["photos"][0]["id"]);
}

#[test]
fn mock_thumb_is_svg_after_list() {
    let mut state = AppState::with_mock(2);
    let list = json(&req(&mut state, "GET", "/api/list"));
    let id = list["photos"][0]["id"].as_str().unwrap().to_string();
    let r = req(&mut state, "GET", &format!("/api/thumb/{id}"));
    assert_eq!(r.status, 200);
    assert!(r.content_type.contains("svg"));
}

#[test]
fn photo_route_is_attachment() {
    let mut state = AppState::with_mock(1);
    let list = json(&req(&mut state, "GET", "/api/list"));
    let id = list["photos"][0]["id"].as_str().unwrap().to_string();
    let r = req(&mut state, "GET", &format!("/api/photo/{id}"));
    assert_eq!(r.status, 200);
    assert!(r
        .content_disposition
        .as_deref()
        .unwrap_or("")
        .contains("attachment"));
}

#[test]
fn media_is_cacheable_but_listing_is_not() {
    let mut state = AppState::with_mock(1);
    let list = json(&req(&mut state, "GET", "/api/list"));
    let id = list["photos"][0]["id"].as_str().unwrap().to_string();

    let thumb = req(&mut state, "GET", &format!("/api/thumb/{id}"));
    assert!(thumb
        .cache_control
        .as_deref()
        .unwrap_or("")
        .contains("immutable"));
    let photo = req(&mut state, "GET", &format!("/api/photo/{id}"));
    assert!(photo
        .cache_control
        .as_deref()
        .unwrap_or("")
        .contains("immutable"));

    assert!(req(&mut state, "GET", "/api/list").cache_control.is_none());
}

#[test]
fn unknown_id_404() {
    let mut state = AppState::with_mock(1);
    let _ = req(&mut state, "GET", "/api/list");
    assert_eq!(req(&mut state, "GET", "/api/thumb/nope").status, 404);
    assert_eq!(req(&mut state, "GET", "/api/photo/nope").status, 404);
}

#[test]
fn serves_index() {
    let r = req(&mut AppState::new(), "GET", "/");
    assert_eq!(r.status, 200);
    assert!(String::from_utf8_lossy(&r.body).contains("gallery"));
}

#[test]
fn serve_asset_names_index_for_root() {
    assert_eq!(serve_asset(&DummyAssets, "/").status, 200);
    assert_eq!(serve_asset(&DummyAssets, "//index.html").status, 200);
    let missing = serve_asset(&DummyAssets, "/assets/app.js");
    assert_eq!(missing.status, 404);
    assert_eq!(missing.body, b"not found");
    assert_eq!(asset_name("/"), "index.html");
    assert_eq!(asset_name("///assets/app.js"), "assets/app.js");
}

#[test]
fn photos_resolve_only_after_they_are_listed() {
    let mut state = AppState::with_mock(3);
    assert!(state.photo("mock-000").is_none());
    assert_eq!(state.info().photo_count, 0);
    let _ = req(&mut state, "GET", "/api/list?offset=1&limit=1");
    assert!(state.photo("mock-000").is_none());
    assert_eq!(state.photo("mock-001").unwrap().name, "DSC07001.JPG");
    assert_eq!(state.info().photo_count, 1);
    let _ = req(&mut state, "GET", "/api/list");
    assert_eq!(state.info().photo_count, 3);
    // Listing the same page again caches nothing twice.
    let _ = req(&mut state, "GET", "/api/list");
    assert_eq!(state.info().photo_count, 3);
}

#[test]
fn routes_by_method_and_path() {
    assert!(matches!(route("GET", "/api/state?x=1"), Route::State));
    assert!(matches!(route("POST", "/api/connect"), Route::Connect));
    assert!(matches!(route("GET", "/api/connect"), Route::Asset(n) if n == "api/connect"));
    assert!(matches!(route("POST", "/api/state"), Route::NotFound));
    assert!(matches!(route("PUT", "/"), Route::NotFound));
    assert!(matches!(route("GET", "/api/thumb/mock-001?v=7"), Route::Thumb(id) if id == "mock-001"));
    assert!(matches!(route("GET", "/api/photo/abc"), Route::Photo(id) if id == "abc"));
    assert!(matches!(route("GET", "/"), Route::Asset(n) if n == "index.html"));
    assert!(matches!(
        route("GET", "/api/list?offset=60&limit=60"),
        Route::List { offset: 60, limit: 60 }
    ));
}

#[test]
fn page_params_default_and_clamp() {
    assert_eq!(parse_page_params("/api/list"), (0, 60));
    assert_eq!(parse_page_params("/api/list?offset=120&limit=30"), (120, 30));
    assert_eq!(parse_page_params("/api/list?limit=0"), (0, 1));
    assert_eq!(parse_page_params("/api/list?limit=9999"), (0, 500));
    assert_eq!(parse_page_params("/api/list?offset=x&limit=y"), (0, 60));
    assert_eq!(parse_page_params("/api/list?offset=5&offset=7&junk&a=b"), (7, 60));
    assert_eq!(parse_page_params("/api/list?limit=+20"), (0, 20));
}

#[test]
fn connect_host_comes_from_json_body() {
    assert_eq!(parse_connect_host(br#"{"host":"10.0.0.1"}"#).as_deref(), Some("10.0.0.1"));
    assert_eq!(parse_connect_host(br#"{"host":"  "}"#), None);
    assert_eq!(parse_connect_host(br#"{"host":5}"#), None);
    assert_eq!(parse_connect_host(b"{}"), None);
    assert_eq!(parse_connect_host(b"not json"), None);
    assert_eq!(parse_connect_host(b""), None);
}

#[test]
fn state_json_escapes_text() {
    let mut state = AppState::new();
    let e = state.begin_connect();
    let _ = state.commit_connect(e, Err::<Source, String>("bad \"host\"\n".into()));
    let r = state_response(&state.info());
    let v = json(&r);
    assert_eq!(v["connected"], false);
    assert_eq!(v["error"], "bad \"host\"\n");
    assert_eq!(v["photoCount"], 0);
    assert_eq!(r.content_type, "application/json; charset=utf-8");
}

#[test]
fn failed_connect_answers_502_with_current_state() {
    let mut state = AppState::with_mock(2);
    let e = state.begin_connect();
    let result = state.commit_connect(e, Err::<Source, String>("no camera found via discovery".into()));
    let r = connect_response(&result, &state.info());
    assert_eq!(r.status, 502);
    let v = json(&r);
    assert_eq!(v["connected"], true);
    assert_eq!(v["host"], "mock (2 photos)");
    assert_eq!(v["error"], "no camera found via discovery");
}

#[test]
fn upstream_failure_is_502() {
    let mut state = AppState::with_mock(1);
    let _ = req(&mut state, "GET", "/api/list");
    let photo = state.photo("mock-000").unwrap();
    let r = proxy_response(&photo, Err("http://h/x: HTTP 500".to_string()), true);
    assert_eq!(r.status, 502);
    assert_eq!(r.body, b"upstream error: http://h/x: HTTP 500");
    assert!(r.cache_control.is_none());
    let ok = proxy_response(&photo, Ok((vec![1, 2, 3], "image/jpeg".to_string())), true);
    assert_eq!(ok.cache_control.as_deref(), Some(MEDIA_CACHE_CONTROL));
    assert_eq!(ok.content_disposition.as_deref(), Some("attachment; filename=\"DSC07000.JPG\""));
}

#[test]
fn asset_types_by_extension() {
    assert_eq!(asset_content_type("index.html"), "text/html; charset=utf-8");
    assert_eq!(asset_content_type("assets/app.js"), "text/javascript; charset=utf-8");
    assert_eq!(asset_content_type("a.b.css"), "text/css; charset=utf-8");
    assert_eq!(asset_content_type("favicon.ico"), "image/x-icon");
    assert_eq!(asset_content_type("LICENSE"), "application/octet-stream");
}
