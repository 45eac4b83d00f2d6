use camera_portal::mock::{
    content_type_for, date_for, generate_dates, is_image, palette, svg_for, MockFetch, MockSource, Rng,
};
use camera_portal::model::Photo;

#[test]
fn dates_are_calendar_dates_with_ascending_times() {
    assert_eq!(date_for(0, 0), "2026-01-01T00:00:00");
    assert_eq!(date_for(0, 61), "2026-01-01T01:01:00");
    assert_eq!(date_for(27, 5), "2026-01-28T00:05:00");
    assert_eq!(date_for(28, 0), "2026-02-01T00:00:00");
    assert_eq!(date_for(28 * 12, 0), "2027-01-01T00:00:00");
}

#[test]
fn generated_dates_ascend_in_bounded_days() {
    for seed in [1u64, 2, 99, 0xDEAD_BEEF] {
        let mut rng = Rng::from_seed(seed);
        let n = 250;
        let dates = generate_dates(n, &mut rng);
        assert_eq!(dates.len(), n);
        for w in dates.windows(2) {
            assert!(w[0] < w[1], "{} !< {}", w[0], w[1]);
        }
        // The biggest day is at most 30% of the photos.
        let mut run = 1;
        let mut biggest = 1;
        for w in dates.windows(2) {
            if w[0][..10] == w[1][..10] {
                run += 1;
            } else {
                run = 1;
            }
            biggest = biggest.max(run);
        }
        assert!(biggest <= 75, "a day of {}", biggest);
    }
    let mut rng = Rng::from_seed(7);
    assert!(generate_dates(0, &mut rng).is_empty());
    assert_eq!(generate_dates(1, &mut rng), vec!["2026-01-01T00:00:00"]);
}

#[test]
fn rng_is_xorshift() {
    let mut rng = Rng::from_seed(0);
    // Seed 0 is made odd (1) and warmed up four steps.
    let mut x: u64 = 1;
    for _ in 0..5 {
        x ^= x << 13;
        x ^= x >> 7;
        x ^= x << 17;
    }
    assert_eq!(rng.next_u64(), x);
    let b = rng.below(10);
    assert!(b < 10);
}

#[test]
fn synthetic_mock_photos() {
    let m = MockSource::new(3);
    assert_eq!(m.host(), "mock (3 photos)");
    let page = m.list_page(1, 5);
    assert_eq!(page.photos.len(), 2);
    assert_eq!(page.total, Some(3));
    assert!(!page.has_more);
    assert_eq!(page.photos[0].id, "mock-001");
    assert_eq!(page.photos[0].name, "DSC07001.JPG");
    assert_eq!(page.photos[0].thumb_url, "");
    let beyond = m.list_page(10, 5);
    assert!(beyond.photos.is_empty());
    assert!(!beyond.has_more);
    let first = m.list_page(0, 2);
    assert!(first.has_more);
}

#[test]
fn synthetic_media_is_an_svg_naming_the_photo() {
    let m = MockSource::new(8);
    let p = &m.list_page(7, 1).photos[0];
    match m.fetch_thumb(p) {
        MockFetch::Ready(bytes, ct) => {
            assert_eq!(ct, "image/svg+xml; charset=utf-8");
            let svg = String::from_utf8(bytes).unwrap();
            assert!(svg.starts_with("<svg xmlns='http://www.w3.org/2000/svg'"));
            assert!(svg.contains("DSC07007.JPG"));
            // Index 7 takes the second colour pair.
            assert!(svg.contains("#e67e22"));
            assert!(svg.contains("#7a4212"));
        }
        other => panic!("unexpected {:?}", other),
    }
    assert_eq!(palette(6), ("#e74c3c", "#7d2820"));
}

#[test]
fn svg_of_an_unnumbered_id_uses_the_first_colours() {
    let p = Photo {
        id: "odd".to_string(),
        name: "x".to_string(),
        date: String::new(),
        thumb_url: String::new(),
        full_url: String::new(),
    };
    assert!(svg_for(&p).contains("#e74c3c"));
}

#[test]
fn directory_mock_cycles_through_files() {
    let files = vec![
        (Some("b.png".to_string()), "/d/b.png".to_string()),
        (Some("notes.txt".to_string()), "/d/notes.txt".to_string()),
        (Some("a.JPG".to_string()), "/d/a.JPG".to_string()),
        (None, "/d/weird".to_string()),
    ];
    let m = MockSource::from_dir("/d", files, Some(5)).unwrap();
    let page = m.list_page(0, 10);
    assert_eq!(page.photos.len(), 5);
    let names: Vec<&str> = page.photos.iter().map(|p| p.name.as_str()).collect();
    assert_eq!(names, vec!["a.JPG", "b.png", "a.JPG", "b.png", "a.JPG"]);
    match m.fetch_full(&page.photos[1]) {
        MockFetch::File(path) => assert_eq!(path, "/d/b.png"),
        other => panic!("unexpected {:?}", other),
    }
    let one_each = MockSource::from_dir("/d", vec![(Some("x.gif".to_string()), "/d/x.gif".to_string())], None).unwrap();
    assert_eq!(one_each.host(), "mock (1 photos)");
}

#[test]
fn directory_without_images_is_refused() {
    let files = vec![(Some("notes.txt".to_string()), "/d/notes.txt".to_string())];
    match MockSource::from_dir("/d", files, None) {
        Err(e) => assert_eq!(e, "no image files in /d"),
        Ok(_) => panic!("a directory without images was accepted"),
    }
}

#[test]
fn image_files_by_extension() {
    assert!(is_image("a.JPEG"));
    assert!(is_image("b.avif"));
    assert!(!is_image("c.txt"));
    assert!(!is_image("jpg"));
    assert_eq!(content_type_for("x.Jpg"), "image/jpeg");
    assert_eq!(content_type_for("x.webp"), "image/webp");
    assert_eq!(content_type_for("x.tiff"), "application/octet-stream");
}

#[test]
fn mock_pages_tile() {
    let m = MockSource::new(9);
    let a = m.list_page(2, 3);
    let b = m.list_page(5, 10);
    let both = m.list_page(2, 13);
    let mut ids: Vec<String> = a.photos.iter().map(|p| p.id.clone()).collect();
    ids.extend(b.photos.iter().map(|p| p.id.clone()));
    let whole: Vec<String> = both.photos.iter().map(|p| p.id.clone()).collect();
    assert_eq!(ids, whole);
    assert!(a.has_more);
    assert!(!b.has_more);
    let huge = m.list_page(usize::MAX, usize::MAX);
    assert!(huge.photos.is_empty());
    assert!(!huge.has_more);
}
