use subscan::domain::{Address, Ipv4, RootDomain};
use subscan::pipeline::{make_hostname, ProgressTracker, ScanResult};
use subscan::resolve::ResolveOutcome;

fn addr(a: u8, b: u8, c: u8, d: u8) -> Address {
    Address { ip: Ipv4(a, b, c, d) }
}

fn candidates(words: &[&str]) -> Vec<String> {
    words.iter().map(|w| w.to_string()).collect()
}

fn run(target: &str, roots: Vec<Address>, cands: &[&str], outs: Vec<ResolveOutcome>) -> ScanResult {
    let cands = candidates(cands);
    subscan::pipeline::run_scan(target, roots, &cands, outs)
}

#[test]
fn hostname_is_candidate_dot_target() {
    assert_eq!(make_hostname("www", "example.com"), "www.example.com");
    assert_eq!(make_hostname("", "example.com"), ".example.com");
}

#[test]
fn progress_reaches_total() {
    let outs = vec![
        ResolveOutcome::Resolved(vec![addr(10, 0, 0, 1)]),
        ResolveOutcome::NotFound,
        ResolveOutcome::Timeout,
        ResolveOutcome::QueryError("transport failure".to_string()),
    ];
    let r = run("example.com", vec![], &["a", "b", "c", "d"], outs);
    assert_eq!(r.processed, 4);
    assert_eq!(r.found_count, 1);
}

#[test]
fn entries_named_from_candidates() {
    let outs = vec![
        ResolveOutcome::Resolved(vec![addr(10, 0, 0, 1)]),
        ResolveOutcome::NotFound,
        ResolveOutcome::Resolved(vec![addr(10, 0, 0, 2)]),
    ];
    let r = run("example.com", vec![], &["www", "mail", "ftp"], outs);
    assert!(r.report.subdomains.len() <= 3);
    for sub in &r.report.subdomains {
        assert!(sub.name == "www.example.com" || sub.name == "ftp.example.com");
    }
    assert_eq!(r.report.subdomains.len(), 2);
}

#[test]
fn duplicate_candidates_reflected() {
    let outs = vec![
        ResolveOutcome::Resolved(vec![addr(10, 0, 0, 1)]),
        ResolveOutcome::Resolved(vec![addr(10, 0, 0, 1)]),
    ];
    let r = run("example.com", vec![], &["www", "www"], outs);
    assert_eq!(r.report.subdomains.len(), 2);
    assert_eq!(r.report.subdomains[0].name, "www.example.com");
    assert_eq!(r.report.subdomains[1].name, "www.example.com");

    let outs = vec![
        ResolveOutcome::Resolved(vec![addr(10, 0, 0, 1)]),
        ResolveOutcome::Resolved(vec![addr(10, 0, 0, 2)]),
    ];
    let r = run("example.com", vec![], &["www", "mail"], outs);
    let mut names: Vec<String> = r.report.subdomains.iter().map(|s| s.name.clone()).collect();
    names.sort();
    names.dedup();
    assert_eq!(names.len(), 2);
}

#[test]
fn same_set_under_reordering() {
    let r1 = run(
        "example.com",
        vec![],
        &["www", "mail", "ghost"],
        vec![
            ResolveOutcome::Resolved(vec![addr(1, 2, 3, 4)]),
            ResolveOutcome::Resolved(vec![addr(5, 6, 7, 8)]),
            ResolveOutcome::NotFound,
        ],
    );
    let r2 = run(
        "example.com",
        vec![],
        &["ghost", "mail", "www"],
        vec![
            ResolveOutcome::NotFound,
            ResolveOutcome::Resolved(vec![addr(5, 6, 7, 8)]),
            ResolveOutcome::Resolved(vec![addr(1, 2, 3, 4)]),
        ],
    );
    let mut names1: Vec<String> = r1.report.subdomains.iter().map(|s| s.name.clone()).collect();
    let mut names2: Vec<String> = r2.report.subdomains.iter().map(|s| s.name.clone()).collect();
    names1.sort();
    names2.sort();
    assert_eq!(names1, names2);
    assert_eq!(r1.processed, r2.processed);
}

#[test]
fn timeout_does_not_mutate_report() {
    let mut report = RootDomain::new("example.com".to_string(), vec![addr(9, 9, 9, 9)]);
    let before = report.clone();
    let found = report.record_outcome("slow.example.com".to_string(), ResolveOutcome::Timeout);
    assert!(!found);
    assert_eq!(report, before);
}

#[test]
fn query_error_does_not_mutate_report() {
    let mut report = RootDomain::new("example.com".to_string(), vec![]);
    let before = report.clone();
    let found = report.record_outcome(
        "bad.example.com".to_string(),
        ResolveOutcome::QueryError("malformed name".to_string()),
    );
    assert!(!found);
    assert_eq!(report, before);
}

#[test]
fn end_to_end_scenario() {
    let r = run(
        "example.com",
        vec![],
        &["www", "mail", "ghost"],
        vec![
            ResolveOutcome::Resolved(vec![addr(93, 184, 216, 34)]),
            ResolveOutcome::Resolved(vec![addr(93, 184, 216, 35)]),
            ResolveOutcome::Timeout,
        ],
    );
    assert_eq!(r.found_count, 2);
    assert_eq!(r.processed, 3);
    assert_eq!(r.report.subdomains.len(), 2);
    assert_eq!(r.report.subdomains[0].name, "www.example.com");
    assert_eq!(r.report.subdomains[1].name, "mail.example.com");
    let json = subscan::json::report_to_json(&r.report);
    assert!(json.contains("www.example.com"));
    assert!(json.contains("mail.example.com"));
    assert!(!json.contains("ghost.example.com"));
}

#[test]
fn empty_candidate_list() {
    let r = run("example.com", vec![addr(93, 184, 216, 34)], &[], vec![]);
    assert_eq!(r.processed, 0);
    assert_eq!(r.found_count, 0);
    assert!(r.report.subdomains.is_empty());
    let json = subscan::json::report_to_json(&r.report);
    assert!(json.ends_with("\"subdomains\":[]}"));
}

#[test]
fn root_addresses_kept() {
    let r = run(
        "example.com",
        vec![addr(93, 184, 216, 34), addr(93, 184, 216, 35)],
        &["www"],
        vec![ResolveOutcome::NotFound],
    );
    assert_eq!(r.report.name, "example.com");
    assert_eq!(
        r.report.addresses,
        vec![addr(93, 184, 216, 34), addr(93, 184, 216, 35)]
    );
}

#[test]
fn progress_tracker_counts() {
    let mut t = ProgressTracker::new();
    assert_eq!(t.done, 0);
    t.advance();
    t.advance();
    assert_eq!(t.done, 2);
}
