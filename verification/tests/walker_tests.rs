//! Scenario tests that drive the crawl engine with a scripted listing
//! service and observe the exact sequence of actions it asks for.

use follow_crawl::walker::{Action, Walker};

/// One scripted page: for a (identity, cursor) request, the targets to
/// return and the continuation cursor, if any.
type PageScript = Vec<((String, Option<String>), (Vec<String>, Option<String>))>;

fn page(
    identity: &str,
    cursor: Option<&str>,
    targets: &[&str],
    next: Option<&str>,
) -> ((String, Option<String>), (Vec<String>, Option<String>)) {
    (
        (identity.to_string(), cursor.map(|c| c.to_string())),
        (
            targets.iter().map(|t| t.to_string()).collect(),
            next.map(|c| c.to_string()),
        ),
    )
}

#[derive(Debug, Default)]
struct CrawlLog {
    enrolled: Vec<String>,
    edges: Vec<(String, String)>,
    fetches: Vec<(String, Option<String>)>,
    final_count: usize,
}

/// Runs a crawl to completion against the scripted service. A request that
/// the script does not mention gets an empty final page.
fn run_crawl(root: &str, script: PageScript) -> CrawlLog {
    let mut walker = Walker::new(root.to_string());
    let mut log = CrawlLog::default();
    let mut guard: usize = 0;
    loop {
        guard += 1;
        assert!(guard < 10_000, "crawl did not terminate");
        match walker.step() {
            Action::Done => break,
            Action::Enroll { identity } => log.enrolled.push(identity),
            Action::Edge { source, target } => log.edges.push((source, target)),
            Action::Fetch { identity, cursor } => {
                log.fetches.push((identity.clone(), cursor.clone()));
                let key = (identity, cursor);
                let (targets, next) = script
                    .iter()
                    .find(|(k, _)| *k == key)
                    .map(|(_, v)| v.clone())
                    .unwrap_or((Vec::new(), None));
                assert!(walker.is_awaiting());
                walker.on_page(targets, next);
            }
        }
    }
    assert!(walker.is_finished());
    log.final_count = walker.visited_count();
    log
}

fn fetched_identities(log: &CrawlLog) -> Vec<String> {
    log.fetches.iter().map(|(id, _)| id.clone()).collect()
}

#[test]
fn root_is_enrolled_first_at_distance_zero() {
    let script = vec![page("root", None, &["b", "c"], None)];
    let mut walker = Walker::new("root".to_string());
    // The very first action of any crawl is the enrollment of the root.
    match walker.step() {
        Action::Enroll { identity } => assert_eq!(identity, "root"),
        other => panic!("expected the root enrollment first, got {:?}", name_of(&other)),
    }
    let log = run_crawl("root", script);
    assert_eq!(log.enrolled[0], "root");
}

fn name_of(a: &Action) -> &'static str {
    match a {
        Action::Enroll { .. } => "Enroll",
        Action::Edge { .. } => "Edge",
        Action::Fetch { .. } => "Fetch",
        Action::Done => "Done",
    }
}

#[test]
fn shared_target_collapse() {
    // root `a` follows {b, c}; `b` follows {d}; `c` follows {b}.
    let script = vec![
        page("a", None, &["b", "c"], None),
        page("b", None, &["d"], None),
        page("c", None, &["b"], None),
    ];
    let log = run_crawl("a", script);
    // Exactly three follow-expansions: a, b, c — never d (first reached at
    // distance 2).
    assert_eq!(fetched_identities(&log), vec!["a", "b", "c"]);
    // Each identity enrolled exactly once; the traversal is depth-first, so
    // d (seen while expanding b) is enrolled before c.
    assert_eq!(log.enrolled, vec!["a", "b", "d", "c"]);
    // The edge c -> b is reported even though b is not expanded again.
    assert!(log.edges.contains(&("c".to_string(), "b".to_string())));
    assert_eq!(
        log.edges,
        vec![
            ("a".to_string(), "b".to_string()),
            ("b".to_string(), "d".to_string()),
            ("a".to_string(), "c".to_string()),
            ("c".to_string(), "b".to_string()),
        ]
    );
    assert_eq!(log.final_count, 4);
}

#[test]
fn pagination_three_pages_in_order() {
    // The listing for the root answers three pages, with cursors c1, c2,
    // then none: exactly three listing calls happen, in order.
    let script = vec![
        page("root", None, &["f1"], Some("c1")),
        page("root", Some("c1"), &["f2"], Some("c2")),
        page("root", Some("c2"), &["f3"], None),
    ];
    let log = run_crawl("root", script);
    let root_fetches: Vec<Option<String>> = log
        .fetches
        .iter()
        .filter(|(id, _)| id == "root")
        .map(|(_, c)| c.clone())
        .collect();
    assert_eq!(
        root_fetches,
        vec![None, Some("c1".to_string()), Some("c2".to_string())]
    );
    assert_eq!(log.enrolled, vec!["root", "f1", "f2", "f3"]);
}

#[test]
fn empty_page_with_cursor_continues() {
    // A page may be empty while a cursor is still present; pagination must
    // go on and only stop at an absent cursor.
    let script = vec![
        page("root", None, &[], Some("c1")),
        page("root", Some("c1"), &[], None),
    ];
    let log = run_crawl("root", script);
    assert_eq!(
        log.fetches,
        vec![
            ("root".to_string(), None),
            ("root".to_string(), Some("c1".to_string())),
        ]
    );
    assert_eq!(log.enrolled, vec!["root"]);
    assert_eq!(log.final_count, 1);
}

#[test]
fn redelivered_page_causes_no_duplicate_work() {
    // The second page repeats the first one's content (a replayed fetch):
    // the edge is reported again, but nothing is enrolled or expanded twice.
    let script = vec![
        page("root", None, &["b"], Some("c1")),
        page("root", Some("c1"), &["b"], None),
        page("b", None, &[], None),
    ];
    let log = run_crawl("root", script);
    assert_eq!(log.enrolled, vec!["root", "b"]);
    assert_eq!(
        fetched_identities(&log),
        vec!["root", "b", "root"],
        "b is expanded once, root pages on"
    );
    assert_eq!(
        log.edges,
        vec![
            ("root".to_string(), "b".to_string()),
            ("root".to_string(), "b".to_string()),
        ]
    );
    assert_eq!(log.final_count, 2);
}

#[test]
fn depth_cutoff_stops_expansion_at_distance_two() {
    // a -> b -> c -> d: c is first reached at distance 2, so it is enrolled
    // but its follows are never listed, and d is never discovered.
    let script = vec![
        page("a", None, &["b"], None),
        page("b", None, &["c"], None),
        page("c", None, &["d"], None),
    ];
    let log = run_crawl("a", script);
    assert_eq!(fetched_identities(&log), vec!["a", "b"]);
    assert_eq!(log.enrolled, vec!["a", "b", "c"]);
    assert!(!log.enrolled.contains(&"d".to_string()));
}

#[test]
fn self_follow_of_root_is_not_reexpanded() {
    // The root follows itself: the edge is reported, but the root's follow
    // list is listed exactly once.
    let script = vec![page("root", None, &["root"], None)];
    let log = run_crawl("root", script);
    assert_eq!(log.fetches, vec![("root".to_string(), None)]);
    assert_eq!(log.edges, vec![("root".to_string(), "root".to_string())]);
    assert_eq!(log.enrolled, vec!["root"]);
}

#[test]
fn diamond_is_enrolled_once_per_identity() {
    // a follows {b, c}; both b and c follow {d}: d is enrolled once and,
    // being first reached at distance 2, never expanded.
    let script = vec![
        page("a", None, &["b", "c"], None),
        page("b", None, &["d"], None),
        page("c", None, &["d"], None),
    ];
    let log = run_crawl("a", script);
    assert_eq!(log.enrolled, vec!["a", "b", "d", "c"]);
    assert_eq!(fetched_identities(&log), vec!["a", "b", "c"]);
    assert_eq!(
        log.edges,
        vec![
            ("a".to_string(), "b".to_string()),
            ("b".to_string(), "d".to_string()),
            ("a".to_string(), "c".to_string()),
            ("c".to_string(), "d".to_string()),
        ]
    );
    assert_eq!(log.final_count, 4);
}

#[test]
fn lone_root_with_no_follows() {
    let log = run_crawl("solo", Vec::new());
    assert_eq!(log.enrolled, vec!["solo"]);
    assert_eq!(log.edges, Vec::<(String, String)>::new());
    assert_eq!(log.fetches, vec![("solo".to_string(), None)]);
    assert_eq!(log.final_count, 1);
}

#[test]
fn visited_count_matches_enrollments() {
    let script = vec![
        page("a", None, &["b", "c", "b", "a"], None),
        page("b", None, &["a", "c"], None),
        page("c", None, &[], None),
    ];
    let log = run_crawl("a", script);
    assert_eq!(log.final_count, log.enrolled.len());
    assert_eq!(log.enrolled, vec!["a", "b", "c"]);
}
