use camera_portal::camera::{Camera, DiscoverStep};
use camera_portal::didl::{dlna_pn, select_urls};
use camera_portal::discover::{candidate_gateways, discovery_hosts, looks_like_sony, msearch, ssdp_location};
use camera_portal::http::{
    browse_retry, encode, parse_response, soap_browse, HttpCall, HttpReply, RetryStep, BROWSE_ATTEMPTS, UA,
};
use camera_portal::url::{host_of, resolve_url, split_url};

#[test]
fn http_split_url_parses_authority_and_path() {
    assert_eq!(
        split_url("http://10.0.0.1:64321/DmsDesc.xml").unwrap(),
        ("10.0.0.1".to_string(), 64321, "/DmsDesc.xml".to_string())
    );
    assert_eq!(
        split_url("http://host").unwrap(),
        ("host".to_string(), 80, "/".to_string())
    );
}

#[test]
fn main_split_url_parses_authority_and_path() {
    assert_eq!(
        split_url("http://10.0.0.1:64321/DmsDesc.xml").unwrap(),
        ("10.0.0.1".to_string(), 64321, "/DmsDesc.xml".to_string())
    );
    assert_eq!(
        split_url("http://host").unwrap(),
        ("host".to_string(), 80, "/".to_string())
    );
}

#[test]
fn split_url_rejects_other_schemes_and_bad_ports() {
    assert_eq!(split_url("https://host/x").unwrap_err(), "only http:// is supported");
    assert_eq!(split_url("http://host:99999/x").unwrap_err(), "bad port");
    assert_eq!(split_url("http://host:abc/x").unwrap_err(), "bad port");
    assert_eq!(
        split_url("http://h:8080/a/b?c").unwrap(),
        ("h".to_string(), 8080, "/a/b?c".to_string())
    );
}

#[test]
fn host_of_strips_scheme_port_path() {
    assert_eq!(host_of("http://10.0.0.1:64321/DmsDesc.xml"), "10.0.0.1");
    assert_eq!(host_of("http://example/x"), "example");
}

#[test]
fn host_of_without_http_scheme_is_empty() {
    assert_eq!(host_of("ftp://example/x"), "");
}

#[test]
fn resolve_url_keeps_absolute_and_joins_relative() {
    assert_eq!(
        resolve_url("http://10.0.0.1:64321/DmsDesc.xml", "http://x/y"),
        "http://x/y"
    );
    assert_eq!(
        resolve_url("http://10.0.0.1:64321/DmsDesc.xml", "/upnp/control/ContentDirectory"),
        "http://10.0.0.1:64321/upnp/control/ContentDirectory"
    );
}

#[test]
fn dlna_pn_extracts_profile() {
    assert_eq!(
        dlna_pn("http-get:*:image/jpeg:DLNA.ORG_PN=JPEG_TN;DLNA.ORG_CI=1"),
        "JPEG_TN"
    );
    assert_eq!(dlna_pn("http-get:*:image/jpeg:*"), "");
}

#[test]
fn select_urls_prefers_tn_and_original() {
    let res: Vec<(String, String)> = vec![
        (
            "http-get:*:image/jpeg:DLNA.ORG_PN=JPEG_LRG".into(),
            "http://h/LRG.JPG".into(),
        ),
        (
            "http-get:*:image/jpeg:DLNA.ORG_PN=JPEG_TN".into(),
            "http://h/TN.JPG".into(),
        ),
        ("http-get:*:image/jpeg:*".into(), "http://h/ORG.JPG".into()),
    ];
    let (thumb, full) = select_urls(&res);
    assert_eq!(thumb, "http://h/TN.JPG");
    assert_eq!(full, "http://h/ORG.JPG");
}

#[test]
fn select_urls_of_no_resources_is_empty() {
    let res: Vec<(String, String)> = Vec::new();
    assert_eq!(select_urls(&res), (String::new(), String::new()));
}

#[test]
fn candidate_gateways_covers_boundaries() {
    assert_eq!(
        candidate_gateways([10, 0, 1, 5]),
        vec!["10.0.1.1", "10.0.0.1", "10.0.0.1"]
    );
}

#[test]
fn discovery_hosts_probe_each_once() {
    assert_eq!(
        discovery_hosts(Some([10, 0, 1, 5])),
        vec!["10.0.1.1", "10.0.0.1", "192.168.122.1"]
    );
    assert_eq!(discovery_hosts(None), vec!["10.0.0.1", "192.168.122.1"]);
}

#[test]
fn sony_detection() {
    assert!(looks_like_sony(b"<modelName>SonyImagingDevice</modelName>"));
    assert!(!looks_like_sony(b"<modelName>Emby</modelName>"));
}

#[test]
fn sony_detection_ignores_case_and_invalid_utf8() {
    assert!(looks_like_sony(b"SERVER: Linux SONY\xff"));
    assert!(looks_like_sony(b"imagingDEVICE"));
    assert!(!looks_like_sony(b"\xff\xfe"));
}

#[test]
fn msearch_names_its_target() {
    assert_eq!(
        msearch("ssdp:all"),
        "M-SEARCH * HTTP/1.1\r\nHOST: 239.255.255.250:1900\r\nMAN: \"ssdp:discover\"\r\nMX: 2\r\nST: ssdp:all\r\n\r\n"
    );
}

#[test]
fn ssdp_location_takes_only_sony_replies() {
    let sony = "HTTP/1.1 200 OK\r\nLOCATION: http://10.0.0.1:64321/DmsDesc.xml \r\nSERVER: UPnP/1.0 SonyImagingDevice/1.0\r\n\r\n";
    assert_eq!(
        ssdp_location(sony).as_deref(),
        Some("http://10.0.0.1:64321/DmsDesc.xml")
    );
    let other = "HTTP/1.1 200 OK\r\nLocation: http://10.0.0.9/desc.xml\r\nServer: Emby\r\n\r\n";
    assert_eq!(ssdp_location(other), None);
    let no_location = "HTTP/1.1 200 OK\r\nSERVER: Sony\r\n\r\n";
    assert_eq!(ssdp_location(no_location), None);
}

#[test]
fn discovery_prefers_ssdp_then_probes_in_turn() {
    let (_, step) = Camera::discover(Some("http://1.2.3.4:64321/DmsDesc.xml".to_string()), None);
    match step {
        DiscoverStep::Found(u) => assert_eq!(u, "http://1.2.3.4:64321/DmsDesc.xml"),
        other => panic!("unexpected {:?}", other),
    }

    let (mut d, step) = Camera::discover(None, None);
    match step {
        DiscoverStep::Probe { host, call } => {
            assert_eq!(host, "10.0.0.1");
            assert_eq!(call.method, "GET");
            assert_eq!(call.url, "http://10.0.0.1:64321/DmsDesc.xml");
            assert_eq!(call.headers, vec![("User-Agent".to_string(), UA.to_string())]);
        }
        other => panic!("unexpected {:?}", other),
    }
    // A router answers: not a camera; go on to the next candidate.
    let router = Ok(HttpReply {
        status: 200,
        body: b"<modelName>Router</modelName>".to_vec(),
        content_type: String::new(),
    });
    match d.resume(&router) {
        DiscoverStep::Probe { host, .. } => assert_eq!(host, "192.168.122.1"),
        other => panic!("unexpected {:?}", other),
    }
    let camera = Ok(HttpReply {
        status: 200,
        body: b"<modelName>SonyImagingDevice</modelName>".to_vec(),
        content_type: String::new(),
    });
    match d.resume(&camera) {
        DiscoverStep::Found(u) => assert_eq!(u, "http://192.168.122.1:64321/DmsDesc.xml"),
        other => panic!("unexpected {:?}", other),
    }
}

#[test]
fn discovery_gives_up_after_the_last_candidate() {
    let (mut d, _) = Camera::discover(None, None);
    let refused: Result<HttpReply, String> = Err("connection refused".to_string());
    assert!(matches!(d.resume(&refused), DiscoverStep::Probe { .. }));
    assert!(matches!(d.resume(&refused), DiscoverStep::NotFound));
}

#[test]
fn http_http_request_round_trips() {
    let call = HttpCall {
        method: "GET".to_string(),
        url: "http://127.0.0.1:8123/x".to_string(),
        headers: vec![("User-Agent".to_string(), "t".to_string())],
        body: None,
    };
    let (host, port, request) = encode(&call).unwrap();
    assert_eq!(host, "127.0.0.1");
    assert_eq!(port, 8123);
    assert_eq!(
        String::from_utf8(request).unwrap(),
        "GET /x HTTP/1.0\r\nHost: 127.0.0.1:8123\r\nUser-Agent: t\r\nConnection: close\r\n\r\n"
    );
    let reply = parse_response(b"HTTP/1.0 200 OK\r\nContent-Type: image/jpeg\r\n\r\nDATA").unwrap();
    assert_eq!(reply.status, 200);
    assert_eq!(reply.body, b"DATA");
    assert_eq!(reply.content_type, "image/jpeg");
}

#[test]
fn request_with_a_body_carries_its_length() {
    let call = HttpCall {
        method: "POST".to_string(),
        url: "http://h/c".to_string(),
        headers: Vec::new(),
        body: Some(b"abc".to_vec()),
    };
    let (host, port, request) = encode(&call).unwrap();
    assert_eq!((host.as_str(), port), ("h", 80));
    assert_eq!(
        String::from_utf8(request).unwrap(),
        "POST /c HTTP/1.0\r\nHost: h:80\r\nContent-Length: 3\r\nConnection: close\r\n\r\nabc"
    );
    let bad = HttpCall { method: "GET".to_string(), url: "ftp://h/".to_string(), headers: Vec::new(), body: None };
    assert_eq!(encode(&bad).unwrap_err(), "only http:// is supported");
}

#[test]
fn replies_without_a_blank_line_are_malformed() {
    assert_eq!(parse_response(b"HTTP/1.0 200 OK\r\n").unwrap_err(), "malformed HTTP response");
    let odd = parse_response(b"garbage\r\ncontent-type:  text/xml \r\n\r\n").unwrap();
    assert_eq!(odd.status, 0);
    assert_eq!(odd.content_type, "text/xml");
    assert!(odd.body.is_empty());
}

#[test]
fn get_of_a_non_200_answer_fails() {
    let ok = Ok(HttpReply { status: 200, body: vec![1], content_type: String::new() });
    assert_eq!(
        camera_portal::http::http_get_bytes("http://h/x", ok).unwrap(),
        (vec![1u8], "image/jpeg".to_string())
    );
    let missing = Ok(HttpReply { status: 404, body: Vec::new(), content_type: String::new() });
    assert_eq!(
        camera_portal::http::http_get_bytes("http://h/x", missing).unwrap_err(),
        "http://h/x: HTTP 404"
    );
}

#[test]
fn browse_retries_twice_then_fails() {
    assert_eq!(BROWSE_ATTEMPTS, 3);
    let busy = || Ok(HttpReply { status: 503, body: Vec::new(), content_type: String::new() });
    match browse_retry("0", 0, busy()) {
        RetryStep::Wait { ms, retry, last } => {
            assert_eq!(ms, 400);
            assert!(retry);
            assert_eq!(last, "Browse 0: HTTP 503");
        }
        other => panic!("unexpected {:?}", other),
    }
    match browse_retry("0", 2, Err("connect h:80: refused".to_string())) {
        RetryStep::Wait { ms, retry, last } => {
            assert_eq!(ms, 1200);
            assert!(!retry);
            assert_eq!(last, "connect h:80: refused");
        }
        other => panic!("unexpected {:?}", other),
    }
    let done = Ok(HttpReply { status: 200, body: b"x".to_vec(), content_type: String::new() });
    assert!(matches!(browse_retry("0", 1, done), RetryStep::Finish(Ok(b)) if b == b"x"));
}

#[test]
fn browse_call_is_a_soap_post() {
    let call = soap_browse("http://h/ctl", "urn:x:ContentDirectory:1", "PhotoRoot", 50, 50);
    assert_eq!(call.method, "POST");
    assert_eq!(call.url, "http://h/ctl");
    assert_eq!(call.headers[2], ("SOAPACTION".to_string(), "\"urn:x:ContentDirectory:1#Browse\"".to_string()));
    let body = String::from_utf8(call.body.unwrap()).unwrap();
    assert!(body.contains("<u:Browse xmlns:u=\"urn:x:ContentDirectory:1\"><ObjectID>PhotoRoot</ObjectID>"));
    assert!(body.contains("<StartingIndex>50</StartingIndex><RequestedCount>50</RequestedCount>"));
}
