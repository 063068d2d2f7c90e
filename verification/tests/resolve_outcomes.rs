use subscan::domain::{Address, Ipv4};
use subscan::resolve::{check_hostname, classify_answers, classify_error, outcome_found, AnswerData, ResolveOutcome};

#[test]
fn classify_empty_answers_is_not_found() {
    let o = classify_answers(&Vec::new());
    assert!(matches!(o, ResolveOutcome::NotFound));
}

#[test]
fn classify_only_other_records_is_not_found() {
    let o = classify_answers(&vec![AnswerData::Other, AnswerData::Other]);
    assert!(matches!(o, ResolveOutcome::NotFound));
}

#[test]
fn classify_keeps_a_records_in_order() {
    let answers = vec![
        AnswerData::Other,
        AnswerData::A(Ipv4(10, 0, 0, 1)),
        AnswerData::Other,
        AnswerData::A(Ipv4(10, 0, 0, 2)),
    ];
    match classify_answers(&answers) {
        ResolveOutcome::Resolved(addrs) => {
            assert_eq!(
                addrs,
                vec![Address { ip: Ipv4(10, 0, 0, 1) }, Address { ip: Ipv4(10, 0, 0, 2) }]
            );
        }
        _ => panic!("expected a resolved outcome"),
    }
}

#[test]
fn classify_error_timeout() {
    let o = classify_error(true, "deadline elapsed".to_string());
    assert!(matches!(o, ResolveOutcome::Timeout));
}

#[test]
fn classify_error_other() {
    match classify_error(false, "connection refused".to_string()) {
        ResolveOutcome::QueryError(d) => assert_eq!(d, "connection refused"),
        _ => panic!("expected a query error"),
    }
}

#[test]
fn found_only_on_non_empty_resolution() {
    assert!(outcome_found(&ResolveOutcome::Resolved(vec![Address { ip: Ipv4(1, 2, 3, 4) }])));
    assert!(!outcome_found(&ResolveOutcome::Resolved(Vec::new())));
    assert!(!outcome_found(&ResolveOutcome::NotFound));
    assert!(!outcome_found(&ResolveOutcome::Timeout));
    assert!(!outcome_found(&ResolveOutcome::QueryError("x".to_string())));
}

#[test]
fn check_hostname_accepts_ordinary_names() {
    assert!(check_hostname("www.example.com").is_none());
    assert!(check_hostname("example.com").is_none());
}

#[test]
fn check_hostname_rejects_oversized_label() {
    // a DNS label is at most 63 octets; this one has 64
    let label = "a".repeat(64);
    let host = format!("{}.example.com", label);
    match check_hostname(&host) {
        Some(ResolveOutcome::QueryError(_)) => {}
        _ => panic!("expected a query error for an oversized label"),
    }
}
