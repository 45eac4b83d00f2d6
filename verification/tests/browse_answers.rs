use camera_portal::browse::{parse_browse, parse_device_description, parse_friendly_name};
use camera_portal::camera::{Camera, CrawlStep};
use camera_portal::http::{http_get_bytes, HttpReply};

const DESC: &str = r#"<?xml version="1.0"?>
<root xmlns="urn:schemas-upnp-org:device-1-0">
  <device>
    <friendlyName> ILCE-6000 </friendlyName>
    <modelName>SonyImagingDevice</modelName>
    <serviceList>
      <service>
        <serviceType>urn:schemas-upnp-org:service:ConnectionManager:1</serviceType>
        <controlURL>/upnp/control/ConnectionManager</controlURL>
      </service>
      <service>
        <serviceType> urn:schemas-upnp-org:service:ContentDirectory:1 </serviceType>
        <controlURL>/upnp/control/ContentDirectory</controlURL>
      </service>
    </serviceList>
  </device>
</root>"#;

fn escape(s: &str) -> String {
    s.replace('&', "&amp;").replace('<', "&lt;").replace('>', "&gt;").replace('"', "&quot;")
}

fn item(n: u32) -> String {
    format!(
        "<item id=\"04_02_0326702136_00000{n}_000001_000000\" parentID=\"x\" restricted=\"1\">\
<dc:title>DSC0700{m}.JPG</dc:title><upnp:class>object.item.imageItem.photo</upnp:class>\
<dc:date>2014-01-01T00:00:1{m}</dc:date>\
<res protocolInfo=\"http-get:*:image/jpeg:DLNA.ORG_PN=JPEG_TN\">http://10.0.0.1:60151/TN_DSC0700{m}.JPG</res>\
<res protocolInfo=\"http-get:*:image/jpeg:DLNA.ORG_PN=JPEG_LRG\">http://10.0.0.1:60151/LRG_DSC0700{m}.JPG</res>\
<res protocolInfo=\"http-get:*:image/jpeg:*\">http://10.0.0.1:60151/ORG_DSC0700{m}.JPG</res></item>",
        n = n + 1,
        m = n
    )
}

fn soap(didl_entries: &str, returned: usize, total: usize) -> Vec<u8> {
    let didl = format!(
        "<DIDL-Lite xmlns=\"urn:schemas-upnp-org:metadata-1-0/DIDL-Lite/\" \
xmlns:dc=\"http://purl.org/dc/elements/1.1/\" xmlns:upnp=\"urn:schemas-upnp-org:metadata-1-0/upnp/\">{}</DIDL-Lite>",
        didl_entries
    );
    format!(
        "<?xml version=\"1.0\"?><s:Envelope xmlns:s=\"http://schemas.xmlsoap.org/soap/envelope/\">\
<s:Body><u:BrowseResponse xmlns:u=\"urn:schemas-upnp-org:service:ContentDirectory:1\">\
<Result>{}</Result><NumberReturned>{}</NumberReturned><TotalMatches>{}</TotalMatches>\
<UpdateID>1</UpdateID></u:BrowseResponse></s:Body></s:Envelope>",
        escape(&didl),
        returned,
        total
    )
    .into_bytes()
}

#[test]
fn parses_device_description() {
    let (ctrl, st) = parse_device_description(DESC, "http://10.0.0.1:64321/DmsDesc.xml").unwrap();
    assert_eq!(ctrl, "http://10.0.0.1:64321/upnp/control/ContentDirectory");
    assert_eq!(st, "urn:schemas-upnp-org:service:ContentDirectory:1");
}

#[test]
fn device_description_without_content_directory_is_refused() {
    let xml = "<root><device><serviceList><service><serviceType>x:ConnectionManager:1</serviceType>\
<controlURL>/c</controlURL></service></serviceList></device></root>";
    assert_eq!(
        parse_device_description(xml, "http://h/d.xml").unwrap_err(),
        "no ContentDirectory service in device description"
    );
    assert!(parse_device_description("<root><unclosed>", "http://h/d.xml").is_err());
}

#[test]
fn friendly_name_is_trimmed() {
    assert_eq!(parse_friendly_name(DESC).as_deref(), Some("ILCE-6000"));
    assert_eq!(parse_friendly_name("<root><device/></root>"), None);
}

#[test]
fn parses_browse_items() {
    let entries: String = (0..4).map(item).collect();
    let r = parse_browse(&soap(&entries, 4, 4)).unwrap();
    assert_eq!(r.containers.len(), 0);
    assert_eq!(r.items.len(), 4);
    let p = &r.items[0];
    assert_eq!(p.id, "04_02_0326702136_000001_000001_000000");
    assert_eq!(p.name, "DSC07000.JPG");
    assert_eq!(p.date, "2014-01-01T00:00:10");
    assert!(p.thumb_url.starts_with("http://10.0.0.1:60151/TN_DSC07000.JPG"));
    assert!(p.full_url.starts_with("http://10.0.0.1:60151/ORG_DSC07000.JPG"));
    assert_eq!(r.number_returned, 4);
    assert_eq!(r.total_matches, 4);
}

#[test]
fn parses_browse_containers_with_counts() {
    let entries = "<container id=\"PhotoRoot\" childCount=\"3\"><dc:title>Photos</dc:title></container>\
<container id=\"Other\" childCount=\"many\"><dc:title>X</dc:title></container>\
<container><dc:title>no id</dc:title></container>";
    let r = parse_browse(&soap(entries, 2, 2)).unwrap();
    assert_eq!(r.items.len(), 0);
    assert_eq!(r.containers.len(), 2);
    assert_eq!(r.containers[0].id, "PhotoRoot");
    assert_eq!(r.containers[0].title, "Photos");
    assert_eq!(r.containers[0].child_count, Some(3));
    assert_eq!(r.containers[1].child_count, None);
}

#[test]
fn browse_answer_that_is_not_xml_is_an_error() {
    assert!(parse_browse(b"not xml at all").is_err());
    let empty = parse_browse(&soap("", 0, 0)).unwrap();
    assert_eq!(empty.items.len(), 0);
    assert_eq!(empty.total_matches, 0);
}

#[test]
fn camera_from_description_reply() {
    let url = Camera::desc_url("10.0.0.1");
    assert_eq!(url, "http://10.0.0.1:64321/DmsDesc.xml");
    let call = Camera::connect("10.0.0.1");
    assert_eq!(call.method, "GET");
    assert_eq!(call.url, url);
    let reply = Ok(HttpReply { status: 200, body: DESC.as_bytes().to_vec(), content_type: "text/xml".to_string() });
    let cam = Camera::from_desc_url(&url, http_get_bytes(&url, reply)).unwrap();
    assert_eq!(cam.host(), "10.0.0.1");
    assert_eq!(cam.friendly_name(), Some("ILCE-6000"));
    assert_eq!(cam.label(), "ILCE-6000");

    let refused = Ok(HttpReply { status: 404, body: Vec::new(), content_type: String::new() });
    assert_eq!(
        Camera::from_desc_url(&url, http_get_bytes(&url, refused)).unwrap_err(),
        "http://10.0.0.1:64321/DmsDesc.xml: HTTP 404"
    );
}

#[test]
fn camera_without_friendly_name_is_labelled_by_host() {
    let xml = DESC.replace("<friendlyName> ILCE-6000 </friendlyName>", "");
    let url = "http://192.168.122.1:64321/DmsDesc.xml";
    let cam = Camera::from_desc_url(url, Ok((xml.into_bytes(), String::new()))).unwrap();
    assert_eq!(cam.friendly_name(), None);
    assert_eq!(cam.label(), "192.168.122.1");
}

#[test]
fn crawl_browses_each_container_once() {
    let url = "http://10.0.0.1:64321/DmsDesc.xml";
    let cam = Camera::from_desc_url(url, Ok((DESC.as_bytes().to_vec(), String::new()))).unwrap();
    let mut crawl = cam.list();
    let first = crawl.step();
    match &first {
        CrawlStep::Browse(call) => {
            assert_eq!(call.method, "POST");
            assert_eq!(call.url, "http://10.0.0.1:64321/upnp/control/ContentDirectory");
            let body = String::from_utf8(call.body.clone().unwrap()).unwrap();
            assert!(body.contains("<ObjectID>0</ObjectID>"));
            assert!(body.contains("<RequestedCount>50</RequestedCount>"));
        }
        other => panic!("unexpected {:?}", other),
    }
    // The root lists two containers, one of them twice, and the root itself.
    let root = "<container id=\"A\"><dc:title>a</dc:title></container>\
<container id=\"B\"><dc:title>b</dc:title></container>\
<container id=\"A\"><dc:title>a</dc:title></container>\
<container id=\"0\"><dc:title>root</dc:title></container>";
    let mut browsed = vec!["0".to_string()];
    let mut step = crawl.resume(Ok(soap(root, 4, 4)));
    let mut photos = Vec::new();
    loop {
        match step {
            CrawlStep::Browse(call) => {
                let body = String::from_utf8(call.body.unwrap()).unwrap();
                let id = body.split("<ObjectID>").nth(1).unwrap().split("</ObjectID>").next().unwrap().to_string();
                assert!(!browsed.contains(&id), "{} browsed twice", id);
                browsed.push(id.clone());
                let answer = if id == "A" { item(0) } else { item(1) };
                step = crawl.resume(Ok(soap(&answer, 1, 1)));
            }
            CrawlStep::Done(r) => {
                photos = r.unwrap();
                break;
            }
        }
    }
    assert_eq!(browsed.len(), 3);
    assert_eq!(photos.len(), 2);
}

#[test]
fn crawl_ends_on_a_failed_browse() {
    let url = "http://10.0.0.1:64321/DmsDesc.xml";
    let cam = Camera::from_desc_url(url, Ok((DESC.as_bytes().to_vec(), String::new()))).unwrap();
    let mut crawl = cam.list();
    let _ = crawl.step();
    match crawl.resume(Err("Browse 0: HTTP 503".to_string())) {
        CrawlStep::Done(Err(e)) => assert_eq!(e, "Browse 0: HTTP 503"),
        other => panic!("unexpected {:?}", other),
    }
}

#[test]
fn crawl_keeps_a_failed_page_error() {
    let url = "http://10.0.0.1:64321/DmsDesc.xml";
    let cam = Camera::from_desc_url(url, Ok((DESC.as_bytes().to_vec(), String::new()))).unwrap();
    let mut crawl = cam.list();
    let _ = crawl.step();
    match crawl.resume_page(Err("bad answer".to_string())) {
        CrawlStep::Done(Err(e)) => assert_eq!(e, "bad answer"),
        other => panic!("unexpected {:?}", other),
    }
}

fn browse_of(call: &camera_portal::http::HttpCall) -> (String, String) {
    let body = String::from_utf8(call.body.clone().unwrap()).unwrap();
    let field = |name: &str| {
        body.split(&format!("<{name}>")).nth(1).unwrap().split(&format!("</{name}>")).next().unwrap().to_string()
    };
    (field("ObjectID"), field("StartingIndex"))
}

#[test]
fn crawl_pages_a_container_until_drained() {
    let url = "http://10.0.0.1:64321/DmsDesc.xml";
    let cam = Camera::from_desc_url(url, Ok((DESC.as_bytes().to_vec(), String::new()))).unwrap();
    let mut crawl = cam.list();
    let mut browsed = Vec::new();
    let mut step = crawl.step();
    let photos = loop {
        match step {
            CrawlStep::Browse(call) => {
                let (id, start) = browse_of(&call);
                browsed.push((id.clone(), start.clone()));
                let answer = match (id.as_str(), start.as_str()) {
                    // The root holds 59 photos and one container: 60 children.
                    ("0", "0") => soap(&(0..50).map(item).collect::<String>(), 50, 60),
                    ("0", "50") => {
                        let mut rest: String = (50..59).map(item).collect();
                        rest.push_str("<container id=\"Z\"><dc:title>z</dc:title></container>");
                        soap(&rest, 10, 60)
                    }
                    ("Z", "0") => soap(&item(59), 1, 1),
                    other => panic!("unexpected browse {:?}", other),
                };
                step = crawl.resume(Ok(answer));
            }
            CrawlStep::Done(r) => break r.unwrap(),
        }
    };
    assert_eq!(
        browsed,
        vec![
            ("0".to_string(), "0".to_string()),
            ("0".to_string(), "50".to_string()),
            ("Z".to_string(), "0".to_string())
        ]
    );
    assert_eq!(photos.len(), 60);
}

#[test]
fn browse_carries_the_soap_headers() {
    let url = "http://10.0.0.1:64321/DmsDesc.xml";
    let cam = Camera::from_desc_url(url, Ok((DESC.as_bytes().to_vec(), String::new()))).unwrap();
    let call = cam.browse_children("0", 0, 50);
    let header = |name: &str| call.headers.iter().find(|(k, _)| k == name).map(|(_, v)| v.clone());
    assert_eq!(header("Content-Type").as_deref(), Some("text/xml; charset=\"utf-8\""));
    assert_eq!(
        header("SOAPACTION").as_deref(),
        Some("\"urn:schemas-upnp-org:service:ContentDirectory:1#Browse\"")
    );
    assert!(header("User-Agent").is_some());
}
