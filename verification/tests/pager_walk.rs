use camera_portal::browse::{BrowsePage, Container};
use camera_portal::model::Photo;
use camera_portal::pager::{Page, Pager, PagerStep, PAGE};

/// A camera tree: "0" → "PhotoRoot" → "Date" → leaves with photos.
struct Tree {
    leaves: Vec<(&'static str, Option<usize>, usize)>,
    browsed: Vec<(String, usize, usize)>,
}

fn photo(leaf: &str, k: usize) -> Photo {
    Photo {
        id: format!("{leaf}-{k}"),
        name: format!("{leaf}{k}.JPG"),
        date: String::new(),
        thumb_url: String::new(),
        full_url: String::new(),
    }
}

fn container(id: &str, count: Option<usize>) -> Container {
    Container { id: id.to_string(), title: id.to_string(), child_count: count }
}

impl Tree {
    fn answer(&mut self, id: &str, start: usize, count: usize) -> BrowsePage {
        self.browsed.push((id.to_string(), start, count));
        let (items, containers): (Vec<Photo>, Vec<Container>) = match id {
            "0" => (Vec::new(), vec![container("PhotoRoot", None)]),
            "PhotoRoot" => (Vec::new(), vec![container("Date", None)]),
            "Date" => (
                Vec::new(),
                self.leaves.iter().map(|(l, c, _)| container(l, *c)).collect(),
            ),
            leaf => {
                let n = self.leaves.iter().find(|(l, _, _)| *l == leaf).unwrap().2;
                ((0..n).map(|k| photo(leaf, k)).collect(), Vec::new())
            }
        };
        let total = items.len() + containers.len();
        let items: Vec<Photo> = items.into_iter().skip(start).take(count).collect();
        let containers: Vec<Container> = containers.into_iter().skip(start).take(count).collect();
        let returned = items.len() + containers.len();
        BrowsePage { items, containers, number_returned: returned, total_matches: total }
    }

    fn page(&mut self, pager: &mut Pager, offset: usize, limit: usize) -> Page {
        let mut step = pager.page(offset, limit);
        loop {
            match step {
                PagerStep::Browse(req) => {
                    let answer = self.answer(&req.container_id, req.start, req.count);
                    step = pager.resume(Ok(answer));
                }
                PagerStep::Done(page) => return page,
                PagerStep::Failed(e) => panic!("failed: {e}"),
            }
        }
    }
}

fn ids(p: &Page) -> Vec<String> {
    p.photos.iter().map(|p| p.id.clone()).collect()
}

#[test]
fn first_page_browses_only_the_spine_and_needed_leaves() {
    let mut tree = Tree { leaves: vec![("A", Some(3), 3), ("B", Some(2), 2), ("C", Some(4), 4)], browsed: Vec::new() };
    let mut pager = Pager::new();
    let p1 = tree.page(&mut pager, 0, 4);
    assert_eq!(ids(&p1), vec!["A-0", "A-1", "A-2", "B-0"]);
    assert_eq!(p1.total, Some(9));
    assert!(p1.has_more);
    let browsed: Vec<&str> = tree.browsed.iter().map(|b| b.0.as_str()).collect();
    assert_eq!(browsed, vec!["0", "PhotoRoot", "Date", "A", "B"]);
    assert!(tree.browsed.iter().all(|b| b.2 == PAGE));
}

#[test]
fn consecutive_pages_tile_without_rewalking() {
    let mut tree = Tree { leaves: vec![("A", Some(3), 3), ("B", Some(2), 2), ("C", Some(4), 4)], browsed: Vec::new() };
    let mut pager = Pager::new();
    let p1 = tree.page(&mut pager, 0, 4);
    let before = tree.browsed.len();
    let p2 = tree.page(&mut pager, 4, 4);
    // B is cached; only C is browsed.
    assert_eq!(tree.browsed.len(), before + 1);
    assert_eq!(ids(&p2), vec!["B-1", "C-0", "C-1", "C-2"]);
    let p3 = tree.page(&mut pager, 8, 4);
    assert_eq!(ids(&p3), vec!["C-3"]);
    assert!(!p3.has_more);
    assert_eq!(p3.total, Some(9));
    let mut all = ids(&p1);
    all.extend(ids(&p2));
    all.extend(ids(&p3));
    let whole = tree.page(&mut pager, 0, 12);
    assert_eq!(all, ids(&whole));
}

#[test]
fn total_is_unknown_until_every_leaf_is_counted() {
    let mut tree = Tree { leaves: vec![("A", None, 3), ("B", None, 2)], browsed: Vec::new() };
    let mut pager = Pager::new();
    let p1 = tree.page(&mut pager, 0, 2);
    assert_eq!(ids(&p1), vec!["A-0", "A-1"]);
    assert_eq!(p1.total, None);
    assert!(p1.has_more);
    let p2 = tree.page(&mut pager, 2, 10);
    assert_eq!(ids(&p2), vec!["A-2", "B-0", "B-1"]);
    assert_eq!(p2.total, Some(5));
    assert!(!p2.has_more);
}

#[test]
fn a_container_with_items_is_a_single_leaf() {
    let mut pager = Pager::new();
    let step = pager.page(0, 2);
    let req = match step {
        PagerStep::Browse(req) => req,
        other => panic!("unexpected {:?}", other),
    };
    assert_eq!(req.container_id, "0");
    let items: Vec<Photo> = (0..3).map(|k| photo("0", k)).collect();
    let answer = BrowsePage { items, containers: Vec::new(), number_returned: 3, total_matches: 3 };
    let mut step = pager.resume(Ok(answer));
    loop {
        match step {
            PagerStep::Browse(req) => {
                assert_eq!(req.container_id, "0");
                let items: Vec<Photo> = (0..3).map(|k| photo("0", k)).skip(req.start).collect();
                let n = items.len();
                step = pager.resume(Ok(BrowsePage { items, containers: Vec::new(), number_returned: n, total_matches: 3 }));
            }
            PagerStep::Done(page) => {
                assert_eq!(ids(&page), vec!["0-0", "0-1"]);
                assert_eq!(page.total, Some(3));
                assert!(page.has_more);
                break;
            }
            PagerStep::Failed(e) => panic!("failed: {e}"),
        }
    }
}

#[test]
fn a_failed_browse_fails_the_page() {
    let mut pager = Pager::new();
    let _ = pager.page(0, 10);
    match pager.resume(Err("Browse 0: HTTP 503".to_string())) {
        PagerStep::Failed(e) => assert_eq!(e, "Browse 0: HTTP 503"),
        other => panic!("unexpected {:?}", other),
    }
    assert!(!pager.is_busy());
}

#[test]
fn pages_past_the_end_are_empty() {
    let mut tree = Tree { leaves: vec![("A", Some(2), 2)], browsed: Vec::new() };
    let mut pager = Pager::default();
    let p = tree.page(&mut pager, 10, 5);
    assert!(p.photos.is_empty());
    assert_eq!(p.total, Some(2));
    assert!(!p.has_more);
}

#[test]
fn no_more_photos_after_the_last_even_with_an_uncounted_leaf() {
    let mut tree = Tree { leaves: vec![("c1", Some(1), 1), ("c2", None, 0)], browsed: Vec::new() };
    let mut pager = Pager::new();
    let p = tree.page(&mut pager, 0, 1);
    assert_eq!(ids(&p), vec!["c1-0"]);
    assert!(!p.has_more);
    assert_eq!(p.total, Some(1));
}

#[test]
fn a_full_page_tallies_only_until_a_photo_follows() {
    let mut tree = Tree {
        leaves: vec![("A", Some(2), 2), ("B", None, 0), ("C", None, 3), ("D", None, 4)],
        browsed: Vec::new(),
    };
    let mut pager = Pager::new();
    let p = tree.page(&mut pager, 0, 2);
    assert_eq!(ids(&p), vec!["A-0", "A-1"]);
    assert!(p.has_more);
    assert_eq!(p.total, None);
    // B (empty) and C (which has photos) were counted; D was left alone.
    let browsed: Vec<&str> = tree.browsed.iter().map(|b| b.0.as_str()).collect();
    assert_eq!(browsed, vec!["0", "PhotoRoot", "Date", "A", "B", "C"]);
}

#[test]
fn a_served_page_is_served_again_without_browsing() {
    let mut tree = Tree {
        leaves: vec![("A", Some(2), 2), ("B", None, 0), ("C", None, 3), ("D", None, 4)],
        browsed: Vec::new(),
    };
    let mut pager = Pager::new();
    let first = tree.page(&mut pager, 1, 3);
    assert_eq!(ids(&first), vec!["A-1", "C-0", "C-1"]);
    let browsed_before = tree.browsed.len();
    match pager.page(1, 3) {
        PagerStep::Done(again) => {
            assert_eq!(ids(&again), ids(&first));
            assert_eq!(again.total, first.total);
            assert_eq!(again.has_more, first.has_more);
        }
        _ => panic!("the same window asked for a browse again"),
    }
    assert_eq!(tree.browsed.len(), browsed_before);
}
