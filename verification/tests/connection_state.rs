use camera_portal::camera::Camera;
use camera_portal::mock::MockSource;
use camera_portal::state::{AppState, ConnectPlan, Connector, MockSpec, RealCamera, Source};

#[test]
fn fresh_connect_records_its_error() {
    let mut state = AppState::new();
    let e = state.begin_connect();
    let r = state.commit_connect(e, Err::<Source, String>("boom".into()));
    assert_eq!(r.unwrap_err(), "boom");
    assert_eq!(state.info().error.as_deref(), Some("boom"));
}

#[test]
fn superseded_connect_is_discarded() {
    let mut state = AppState::new();
    let e1 = state.begin_connect();
    let _e2 = state.begin_connect(); // a newer attempt started

    // The older attempt (e1) finishes last → superseded → touches nothing.
    let r = state.commit_connect(e1, Err::<Source, String>("stale".into()));
    assert_eq!(r.unwrap_err(), "superseded by a newer connect");
    assert!(
        state.info().error.is_none(),
        "stale error must not be recorded"
    );

    // The newer attempt commits normally.
    let r2 = state.commit_connect(_e2, Err::<Source, String>("fresh".into()));
    assert_eq!(r2.unwrap_err(), "fresh");
    assert_eq!(state.info().error.as_deref(), Some("fresh"));
}

#[test]
fn superseded_success_does_not_replace_the_source() {
    let mut state = AppState::with_mock(2);
    let gen = state.source_gen();
    let e1 = state.begin_connect();
    let e2 = state.begin_connect();
    let r = state.commit_connect(e1, Ok(Source::Mock(MockSource::new(5))));
    assert_eq!(r.unwrap_err(), "superseded by a newer connect");
    assert_eq!(state.info().host.as_deref(), Some("mock (2 photos)"));
    assert_eq!(state.source_gen(), gen);
    let info = state.commit_connect(e2, Ok(Source::Mock(MockSource::new(5)))).unwrap();
    assert!(info.connected);
    assert_eq!(info.host.as_deref(), Some("mock (5 photos)"));
    assert_ne!(state.source_gen(), gen);
}

#[test]
fn failed_connect_keeps_the_connection() {
    let mut state = AppState::with_mock(3);
    let e = state.begin_connect();
    let r = state.commit_connect(e, Err::<Source, String>("connect 10.0.0.9:64321: refused".into()));
    assert!(r.is_err());
    let info = state.info();
    assert!(info.connected);
    assert_eq!(info.host.as_deref(), Some("mock (3 photos)"));
    assert_eq!(info.error.as_deref(), Some("connect 10.0.0.9:64321: refused"));
}

#[test]
fn successful_connect_clears_error_and_cache() {
    let mut state = AppState::new();
    let e = state.begin_connect();
    let _ = state.commit_connect(e, Err::<Source, String>("boom".into()));
    let desc = "<root><device><friendlyName>ILCE-6000</friendlyName><serviceList><service>\
<serviceType>urn:schemas-upnp-org:service:ContentDirectory:1</serviceType>\
<controlURL>/upnp/control/ContentDirectory</controlURL></service></serviceList></device></root>";
    let cam = Camera::from_desc_url(
        "http://10.0.0.1:64321/DmsDesc.xml",
        Ok((desc.as_bytes().to_vec(), String::new())),
    )
    .unwrap();
    let e = state.begin_connect();
    let info = state
        .commit_connect(e, Ok(Source::Camera(RealCamera::new(cam))))
        .unwrap();
    assert!(info.connected);
    assert_eq!(info.host.as_deref(), Some("ILCE-6000"));
    assert!(info.error.is_none());
    assert_eq!(info.photo_count, 0);
}

#[test]
fn connect_plans_follow_the_connector() {
    let mut state = AppState::new();
    let (e, plan) = state.connect(Some("10.0.0.1"));
    assert_eq!(e, 1);
    match plan {
        ConnectPlan::Describe { desc_url, call } => {
            assert_eq!(desc_url, "http://10.0.0.1:64321/DmsDesc.xml");
            assert_eq!(call.url, desc_url);
            assert_eq!(call.method, "GET");
        }
        other => panic!("unexpected {:?}", other),
    }
    let (e, plan) = state.connect(None);
    assert_eq!(e, 2);
    assert!(matches!(plan, ConnectPlan::Discover));

    let mut mock = AppState::mock_synthetic(7, 2);
    assert!(!mock.info().connected);
    assert!(matches!(mock.connector(), Connector::Mock { spec: MockSpec::Synthetic(7), delay_secs: 2 }));
    let (_, plan) = mock.connect(Some("ignored"));
    assert!(matches!(plan, ConnectPlan::Mock { spec: MockSpec::Synthetic(7), delay_secs: 2 }));

    let mut dir = AppState::mock_dir("/photos".to_string(), Some(4), 0);
    match dir.connect(None).1 {
        ConnectPlan::Mock { spec: MockSpec::Dir(d, c), delay_secs } => {
            assert_eq!(d, "/photos");
            assert_eq!(c, Some(4));
            assert_eq!(delay_secs, 0);
        }
        other => panic!("unexpected {:?}", other),
    }
}

#[test]
fn started_state_has_no_photos() {
    let (args, _) = camera_portal::cli::parse_args(&vec!["x".to_string(), "--mock".to_string(), "3".to_string()]);
    let info = camera_portal::cli::build_state(&args).info();
    assert!(!info.connected);
    assert_eq!(info.photo_count, 0);
    assert!(AppState::default().info().error.is_none());
}
