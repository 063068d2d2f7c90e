use vstd::prelude::*;
use vstd::string::StringExecFns;
use crate::domain::{Address, RootDomain, RootDomainView, Subdomain, SubdomainView};
use crate::resolve::{is_found, ResolveOutcome};

verus! {

/// The fully-qualified hostname of a candidate: `candidate + "." + target`.
pub open spec fn host_of(candidate: Seq<char>, target: Seq<char>) -> Seq<char> {
    candidate + seq!['.'] + target
}

/// Build the hostname the producer enqueues for one candidate.
pub fn make_hostname(candidate: &str, target: &str) -> (h: String)
    ensures
        h@ == host_of(candidate@, target@),
{
    let h = candidate.to_owned().concat(".").concat(target);
    proof {
        reveal_strlit(".");
        assert(h@ =~= host_of(candidate@, target@));
    }
    h
}

/// One processed candidate, as the report sees it: the hostname, whether
/// the resolution counted as a discovery, and the addresses it returned.
#[verifier::ext_equal]
pub ghost struct Event {
    pub name: Seq<char>,
    pub found: bool,
    pub addresses: Seq<Address>,
}

/// The event a worker observes when `name` resolves with `outcome`.
pub open spec fn event_of(name: Seq<char>, outcome: ResolveOutcome) -> Event {
    Event {
        name: name,
        found: is_found(outcome),
        addresses: match outcome {
            ResolveOutcome::Resolved(v) => v@,
            _ => Seq::empty(),
        },
    }
}

/// The subdomain entry a discovery event contributes to the report.
pub open spec fn found_sub(e: Event) -> SubdomainView {
    SubdomainView { name: e.name, addresses: e.addresses }
}

/// How one event changes the shared report: a discovery appends its
/// entry; every other outcome leaves the report untouched.
pub open spec fn apply_event(r: RootDomainView, e: Event) -> RootDomainView {
    if e.found {
        RootDomainView { subdomains: r.subdomains.push(found_sub(e)), ..r }
    } else {
        r
    }
}

/// The report after a sequence of events has been applied in order.
pub open spec fn run_events(r: RootDomainView, es: Seq<Event>) -> RootDomainView
    decreases es.len(),
{
    if es.len() == 0 {
        r
    } else {
        apply_event(run_events(r, es.drop_last()), es.last())
    }
}

/// The report a run starts from: the root name, the root's own addresses,
/// and no subdomains.
pub open spec fn init_report(name: Seq<char>, addresses: Seq<Address>) -> RootDomainView {
    RootDomainView { name: name, addresses: addresses, subdomains: Seq::empty() }
}

impl RootDomain {
    /// Record the outcome for one processed hostname. This is the whole
    /// critical section a worker runs while it holds the report: a single
    /// append on a discovery, nothing otherwise. Returns whether the
    /// outcome was a discovery.
    pub fn record_outcome(&mut self, name: String, outcome: ResolveOutcome) -> (found: bool)
        ensures
            final(self)@ == apply_event(old(self)@, event_of(name@, outcome)),
            found == is_found(outcome),
            old(self)@.wf() ==> final(self)@.wf(),
    {
        let ghost ev = event_of(name@, outcome);
        match outcome {
            ResolveOutcome::Resolved(addresses) => {
                if addresses.len() > 0 {
                    let sub = Subdomain::new(name, addresses);
                    let ghost subv = sub@;
                    self.subdomains.push(sub);
                    proof {
                        assert(self@.subdomains =~= old(self)@.subdomains.push(subv));
                        assert(found_sub(ev) =~= subv);
                        assert(self@ =~= apply_event(old(self)@, ev));
                        if old(self)@.wf() {
                            assert forall|j: int| 0 <= j < self@.subdomains.len()
                                implies (#[trigger] self@.subdomains[j]).wf() by {
                                if j < old(self)@.subdomains.len() {
                                    assert(old(self)@.subdomains[j].wf());
                                } else {
                                    assert(self@.subdomains[j] == subv);
                                }
                            }
                        }
                    }
                    true
                } else {
                    false
                }
            }
            _ => false,
        }
    }
}

/// The monotone count of processed candidates that drives the external
/// progress display. Purely observational: it never gates resolution.
pub struct ProgressTracker {
    pub done: usize,
}

impl ProgressTracker {
    /// A tracker that has seen nothing yet.
    pub fn new() -> (t: ProgressTracker)
        ensures
            t.done == 0,
    {
        ProgressTracker { done: 0 }
    }

    /// One candidate was processed, whatever its outcome.
    pub fn advance(&mut self)
        requires
            old(self).done < usize::MAX,
        ensures
            final(self).done == old(self).done + 1,
    {
        self.done = self.done + 1;
    }
}

/// Everything a finished run hands to the report writer: the finalized
/// report, how many subdomains were discovered, and how many candidates
/// were processed.
pub struct ScanResult {
    pub report: RootDomain,
    pub found_count: usize,
    pub processed: usize,
}

/// The events of a run over `candidates` in which candidate `i` resolves
/// with `outcomes[i]`.
pub open spec fn events_of(
    candidates: Seq<Seq<char>>,
    target: Seq<char>,
    outcomes: Seq<ResolveOutcome>,
) -> Seq<Event> {
    Seq::new(candidates.len(), |i: int| event_of(host_of(candidates[i], target), outcomes[i]))
}

/// The whole pipeline at concurrency one: feed every candidate through
/// resolution (whose outcomes are given) and aggregate the report. Any
/// concurrent run applies the same events to the same report, in some
/// order; the laws in `laws` relate reorderings to this reference run.
pub fn run_scan(
    target: &str,
    root_addresses: Vec<Address>,
    candidates: &Vec<String>,
    outcomes: Vec<ResolveOutcome>,
) -> (r: ScanResult)
    requires
        outcomes@.len() == candidates@.len(),
    ensures
        r.report@ == run_events(
            init_report(target@, root_addresses@),
            events_of(candidates@.map_values(|c: String| c@), target@, outcomes@),
        ),
        r.report@.name == target@,
        r.report@.addresses == root_addresses@,
        r.report@.wf(),
        r.processed == candidates@.len(),
        r.found_count == r.report@.subdomains.len(),
{
    let ghost cands: Seq<Seq<char>> = candidates@.map_values(|c: String| c@);
    let ghost all_events: Seq<Event> = events_of(cands, target@, outcomes@);
    let ghost outcomes0 = outcomes@;
    let ghost init = init_report(target@, root_addresses@);
    let ghost root_addrs = root_addresses@;

    let mut report = RootDomain::new(target.to_owned(), root_addresses);
    let mut outcomes = outcomes;
    let mut found_count: usize = 0;
    let mut progress = ProgressTracker::new();
    let mut i: usize = 0;

    while i < candidates.len()
        invariant
            i <= candidates@.len(),
            cands == candidates@.map_values(|c: String| c@),
            all_events == events_of(cands, target@, outcomes0),
            outcomes0.len() == candidates@.len(),
            outcomes@ =~= outcomes0.skip(i as int),
            report@ == run_events(init, all_events.take(i as int)),
            report@.name == target@,
            report@.addresses == root_addrs,
            report@.wf(),
            found_count == report@.subdomains.len(),
            found_count <= i,
            progress.done == i,
        decreases candidates@.len() - i,
    {
        let hostname = make_hostname(candidates[i].as_str(), target);
        let outcome = outcomes.remove(0);
        proof {
            assert(outcome == outcomes0[i as int]);
            assert(outcomes@ =~= outcomes0.skip(i + 1));
            assert(all_events.take(i + 1).drop_last() =~= all_events.take(i as int));
            assert(all_events.take(i + 1).last() == all_events[i as int]);
            assert(all_events[i as int] == event_of(host_of(cands[i as int], target@), outcomes0[i as int]));
        }
        let found = report.record_outcome(hostname, outcome);
        if found {
            found_count += 1;
        }
        progress.advance();
        i += 1;
    }
    proof {
        assert(all_events.take(candidates@.len() as int) =~= all_events);
    }
    ScanResult { report, found_count, processed: progress.done }
}

} // verus!
