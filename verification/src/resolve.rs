use vstd::prelude::*;
use std::str::FromStr;
use crate::domain::{Address, Ipv4};

verus! {

/// What one DNS answer record carries, as far as the scanner reads it:
/// an IPv4 address record, or record data of any other type.
#[derive(Clone, Copy, PartialEq, Eq, Structural, Debug)]
pub enum AnswerData {
    A(Ipv4),
    Other,
}

/// The classified outcome of one address-resolution query.
///
/// `Resolved` carries a non-empty address list when produced by
/// [`classify_answers`]; a query that succeeded with no usable records is
/// `NotFound`; a query that hit the per-query deadline is `Timeout`; a
/// malformed name or a transport or protocol failure is `QueryError`.
#[derive(Debug)]
pub enum ResolveOutcome {
    Resolved(Vec<Address>),
    NotFound,
    Timeout,
    QueryError(String),
}

/// Whether the resolver's name syntax accepts a hostname string.
pub uninterp spec fn hostname_parses(s: Seq<char>) -> bool;

/// Relies on trust_dns_client's `Name::from_str` (`Name::from_str_relaxed`
/// in trust-dns-proto): whether a hostname string parses as a DNS name
/// depends on the string alone.
#[verifier::external_body]
fn parse_name(s: &str) -> (r: Result<(), String>)
    ensures
        r is Ok <==> hostname_parses(s@),
{
    match trust_dns_client::rr::Name::from_str(s) {
        Ok(_) => Ok(()),
        Err(e) => Err(format!("{}", e)),
    }
}

/// The check a resolver client runs before issuing a query: a hostname
/// whose syntax the resolver rejects is classified `QueryError` without
/// any query being sent; a well-formed hostname yields `None` and the
/// query may proceed.
pub fn check_hostname(hostname: &str) -> (r: Option<ResolveOutcome>)
    ensures
        r is None <==> hostname_parses(hostname@),
        r matches Some(o) ==> o is QueryError,
{
    match parse_name(hostname) {
        Ok(()) => None,
        Err(detail) => Some(ResolveOutcome::QueryError(detail)),
    }
}

/// The IPv4 addresses among a sequence of answer records, in answer order.
pub open spec fn a_records(answers: Seq<AnswerData>) -> Seq<Address>
    decreases answers.len(),
{
    if answers.len() == 0 {
        Seq::empty()
    } else {
        let rest = a_records(answers.drop_last());
        match answers.last() {
            AnswerData::A(ip) => rest.push(Address { ip }),
            AnswerData::Other => rest,
        }
    }
}

/// Classify a successful query response from its answer records: the
/// outcome is `Resolved` with exactly the IPv4 answers when there is at
/// least one, and `NotFound` when the response carries none.
pub fn classify_answers(answers: &Vec<AnswerData>) -> (o: ResolveOutcome)
    ensures
        a_records(answers@).len() > 0 ==> (o matches ResolveOutcome::Resolved(v)
            && v@ == a_records(answers@)),
        a_records(answers@).len() == 0 ==> o is NotFound,
{
    let mut found: Vec<Address> = Vec::new();
    let mut i: usize = 0;
    while i < answers.len()
        invariant
            i <= answers@.len(),
            found@ == a_records(answers@.take(i as int)),
        decreases answers@.len() - i,
    {
        proof {
            assert(answers@.take(i + 1).drop_last() =~= answers@.take(i as int));
            assert(answers@.take(i + 1).last() == answers@[i as int]);
        }
        match answers[i] {
            AnswerData::A(ip) => found.push(Address { ip }),
            AnswerData::Other => {}
        }
        i += 1;
    }
    proof {
        assert(answers@.take(answers@.len() as int) =~= answers@);
    }
    if found.len() > 0 {
        ResolveOutcome::Resolved(found)
    } else {
        ResolveOutcome::NotFound
    }
}

/// Classify a failed query: a hit of the per-query deadline is `Timeout`;
/// every other client error is `QueryError` with its detail, and neither
/// aborts the run.
pub fn classify_error(timed_out: bool, detail: String) -> (o: ResolveOutcome)
    ensures
        timed_out ==> o is Timeout,
        !timed_out ==> (o matches ResolveOutcome::QueryError(d) && d == detail),
{
    if timed_out {
        ResolveOutcome::Timeout
    } else {
        ResolveOutcome::QueryError(detail)
    }
}

/// Whether an outcome counts as a discovery: a resolution that returned at
/// least one address.
pub open spec fn is_found(o: ResolveOutcome) -> bool {
    o matches ResolveOutcome::Resolved(v) && v@.len() > 0
}

/// The worker's decision on one outcome: only a non-empty resolution adds
/// an entry to the report.
pub fn outcome_found(o: &ResolveOutcome) -> (b: bool)
    ensures
        b == is_found(*o),
{
    match o {
        ResolveOutcome::Resolved(v) => v.len() > 0,
        _ => false,
    }
}

} // verus!
