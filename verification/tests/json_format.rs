use subscan::domain::{Address, Ipv4, RootDomain, Subdomain};
use subscan::json::{parse_report, report_to_json};

fn addr(a: u8, b: u8, c: u8, d: u8) -> Address {
    Address { ip: Ipv4(a, b, c, d) }
}

fn sample_report() -> RootDomain {
    let www = Subdomain::new(
        "www.example.com".to_string(),
        vec![addr(93, 184, 216, 34), addr(0, 0, 0, 0)],
    );
    let mail = Subdomain::new("mail.example.com".to_string(), vec![addr(255, 255, 255, 255)]);
    RootDomain {
        name: "example.com".to_string(),
        addresses: vec![addr(93, 184, 216, 34)],
        subdomains: vec![www, mail],
    }
}

#[test]
fn json_exact_empty_report() {
    let r = RootDomain::new("example.com".to_string(), Vec::new());
    assert_eq!(
        report_to_json(&r),
        "{\"name\":\"example.com\",\"addresses\":[],\"subdomains\":[]}"
    );
}

#[test]
fn json_exact_full_report() {
    let expected = "{\"name\":\"example.com\",\"addresses\":[{\"ip\":\"93.184.216.34\"}],\"subdomains\":[{\"name\":\"www.example.com\",\"addresses\":[{\"ip\":\"93.184.216.34\"},{\"ip\":\"0.0.0.0\"}]},{\"name\":\"mail.example.com\",\"addresses\":[{\"ip\":\"255.255.255.255\"}]}]}";
    assert_eq!(report_to_json(&sample_report()), expected);
}

#[test]
fn json_digit_widths() {
    let r = RootDomain::new(
        "t".to_string(),
        vec![addr(0, 7, 45, 250), addr(9, 10, 99, 100)],
    );
    let json = report_to_json(&r);
    assert!(json.contains("\"0.7.45.250\""));
    assert!(json.contains("\"9.10.99.100\""));
}

#[test]
fn json_is_valid_json() {
    let json = report_to_json(&sample_report());
    let v: serde_json::Value = serde_json::from_str(&json).expect("emitted text must parse");
    assert_eq!(v.get("name").unwrap().as_str(), Some("example.com"));
    let subs = v.get("subdomains").unwrap().as_array().unwrap();
    assert_eq!(subs.len(), 2);
    assert_eq!(subs[0].get("name").unwrap().as_str(), Some("www.example.com"));
    let addrs = subs[1].get("addresses").unwrap().as_array().unwrap();
    assert_eq!(addrs[0].get("ip").unwrap().as_str(), Some("255.255.255.255"));
}

#[test]
fn serialization_round_trip() {
    let r = sample_report();
    let json = report_to_json(&r);
    let parsed = parse_report(&json).expect("canonical text must parse");
    assert_eq!(parsed.name, r.name);
    assert_eq!(parsed.addresses, r.addresses);
    assert_eq!(parsed.subdomains, r.subdomains);
    assert_eq!(parsed, r);
}

#[test]
fn round_trip_empty_report() {
    let r = RootDomain::new("example.com".to_string(), Vec::new());
    let parsed = parse_report(&report_to_json(&r)).expect("canonical text must parse");
    assert_eq!(parsed, r);
}

#[test]
fn parse_rejects_non_canonical_text() {
    assert!(parse_report("").is_none());
    assert!(parse_report("nonsense").is_none());
    assert!(parse_report("{\"name\":\"x\"}").is_none());
    // valid JSON, but not the canonical shape the writer produces
    assert!(parse_report("{\"name\":\"x\", \"addresses\":[],\"subdomains\":[]}").is_none());
    assert!(parse_report("{\"name\":\"x\",\"addresses\":[],\"subdomains\":[]} ").is_none());
    // an octet out of range
    assert!(
        parse_report(
            "{\"name\":\"x\",\"addresses\":[{\"ip\":\"300.0.0.1\"}],\"subdomains\":[]}"
        )
        .is_none()
    );
}
