use vstd::prelude::*;
use crate::domain::{Address, RootDomainView, SubdomainView};
use crate::pipeline::{
    apply_event, event_of, events_of, found_sub, host_of, init_report, run_events, Event,
};
use crate::resolve::ResolveOutcome;

verus! {

/// The subdomain entries the found events of `es` contribute, in order.
pub open spec fn found_subs(es: Seq<Event>) -> Seq<SubdomainView>
    decreases es.len(),
{
    if es.len() == 0 {
        Seq::empty()
    } else {
        let rest = found_subs(es.drop_last());
        if es.last().found {
            rest.push(found_sub(es.last()))
        } else {
            rest
        }
    }
}

/// A run only appends: it keeps the root name and the root addresses, and
/// its subdomain entries are the starting ones followed by exactly the
/// found events' entries.
pub proof fn lemma_run_events_shape(r: RootDomainView, es: Seq<Event>)
    ensures
        run_events(r, es).name == r.name,
        run_events(r, es).addresses == r.addresses,
        run_events(r, es).subdomains == r.subdomains + found_subs(es),
    decreases es.len(),
{
    if es.len() == 0 {
        assert(r.subdomains + found_subs(es) =~= r.subdomains);
    } else {
        lemma_run_events_shape(r, es.drop_last());
        assert(run_events(r, es) == apply_event(run_events(r, es.drop_last()), es.last()));
        if es.last().found {
            assert((r.subdomains + found_subs(es.drop_last())).push(found_sub(es.last()))
                =~= r.subdomains + found_subs(es));
        }
    }
}

/// At most one entry per event.
pub proof fn lemma_found_subs_len(es: Seq<Event>)
    ensures
        found_subs(es).len() <= es.len(),
    decreases es.len(),
{
    if es.len() > 0 {
        lemma_found_subs_len(es.drop_last());
    }
}

/// Every entry among the found entries comes from a found event.
pub proof fn lemma_found_subs_membership(es: Seq<Event>)
    ensures
        forall|k: int| 0 <= k < found_subs(es).len() ==> exists|i: int|
            0 <= i < es.len() && (#[trigger] es[i]).found
                && (#[trigger] found_subs(es)[k]) == found_sub(es[i]),
    decreases es.len(),
{
    if es.len() > 0 {
        lemma_found_subs_membership(es.drop_last());
        assert forall|k: int| 0 <= k < found_subs(es).len() implies exists|i: int|
            0 <= i < es.len() && (#[trigger] es[i]).found
                && (#[trigger] found_subs(es)[k]) == found_sub(es[i]) by {
            if k < found_subs(es.drop_last()).len() {
                let i = choose|i: int| 0 <= i < es.drop_last().len() && (#[trigger] es.drop_last()[i]).found
                    && found_subs(es.drop_last())[k] == found_sub(es.drop_last()[i]);
                assert(es[i] == es.drop_last()[i]);
                assert(0 <= i < es.len() && es[i].found && found_subs(es)[k] == found_sub(es[i]));
            } else {
                let i = es.len() - 1;
                assert(0 <= i < es.len() && es[i].found && found_subs(es)[k] == found_sub(es[i]));
            }
        }
    }
}

/// Every found event's entry is among the found entries.
pub proof fn lemma_found_subs_complete(es: Seq<Event>)
    ensures
        forall|i: int| 0 <= i < es.len() && (#[trigger] es[i]).found
            ==> found_subs(es).contains(found_sub(es[i])),
    decreases es.len(),
{
    if es.len() > 0 {
        lemma_found_subs_complete(es.drop_last());
        assert forall|i: int| 0 <= i < es.len() && (#[trigger] es[i]).found
            implies found_subs(es).contains(found_sub(es[i])) by {
            if i < es.len() - 1 {
                assert(es.drop_last()[i] == es[i]);
                assert(found_subs(es.drop_last()).contains(found_sub(es[i])));
                let k = choose|k: int| 0 <= k < found_subs(es.drop_last()).len()
                    && found_subs(es.drop_last())[k] == found_sub(es[i]);
                assert(found_subs(es)[k] == found_sub(es[i]));
            } else {
                assert(found_subs(es).last() == found_sub(es[i]));
            }
        }
    }
}

/// What it means for a report to stay within its inputs: at most one
/// entry per candidate, and every entry's name is `candidate + "." +
/// target` for some candidate of the input list.
/// Whether `name` is the hostname of some candidate of the input list.
pub open spec fn from_some_candidate(
    name: Seq<char>,
    cands: Seq<Seq<char>>,
    target: Seq<char>,
) -> bool {
    exists|j: int| 0 <= j < cands.len() && name == host_of(#[trigger] cands[j], target)
}

pub open spec fn entries_from_candidates(
    rep: RootDomainView,
    cands: Seq<Seq<char>>,
    target: Seq<char>,
) -> bool {
    &&& rep.subdomains.len() <= cands.len()
    &&& forall|k: int| 0 <= k < rep.subdomains.len()
        ==> from_some_candidate((#[trigger] rep.subdomains[k]).name, cands, target)
}

/// The report of a run holds at most one entry per candidate, and every
/// entry's name is `candidate + "." + target` for some candidate of the
/// input list — for any interleaving of the run's events.
pub proof fn lemma_entries_come_from_candidates(
    cands: Seq<Seq<char>>,
    target: Seq<char>,
    outs: Seq<ResolveOutcome>,
    root_name: Seq<char>,
    root_addrs: Seq<Address>,
    es: Seq<Event>,
)
    requires
        outs.len() == cands.len(),
        es.to_multiset() == events_of(cands, target, outs).to_multiset(),
    ensures
        entries_from_candidates(run_events(init_report(root_name, root_addrs), es), cands, target),
{
    let canon = events_of(cands, target, outs);
    let rep = run_events(init_report(root_name, root_addrs), es);
    es.to_multiset_ensures();
    canon.to_multiset_ensures();
    assert(es.len() == cands.len());
    lemma_run_events_shape(init_report(root_name, root_addrs), es);
    assert(rep.subdomains =~= found_subs(es));
    lemma_found_subs_len(es);
    lemma_found_subs_membership(es);
    assert(rep.subdomains.len() <= cands.len());
    assert forall|k: int| 0 <= k < rep.subdomains.len() implies from_some_candidate(
        (#[trigger] rep.subdomains[k]).name,
        cands,
        target,
    ) by {
        assert(0 <= k < found_subs(es).len());
        assert(found_subs(es)[k] == rep.subdomains[k]);
        let i = choose|i: int| 0 <= i < es.len() && (#[trigger] es[i]).found
            && found_subs(es)[k] == found_sub(es[i]);
        assert(es.contains(es[i]));
        assert(canon.to_multiset().count(es[i]) > 0);
        assert(canon.contains(es[i]));
        let j = choose|j: int| 0 <= j < canon.len() && canon[j] == es[i];
        assert(canon[j].name == host_of(cands[j], target));
        assert(rep.subdomains[k].name == host_of(cands[j], target));
    }
    assert(entries_from_candidates(rep, cands, target));
}

/// How often a name occurs among subdomain entries.
pub open spec fn name_count(subs: Seq<SubdomainView>, n: Seq<char>) -> nat
    decreases subs.len(),
{
    if subs.len() == 0 {
        0
    } else {
        name_count(subs.drop_last(), n) + if subs.last().name == n {
            1nat
        } else {
            0nat
        }
    }
}

/// How often a name occurs among the events.
pub open spec fn event_name_count(es: Seq<Event>, n: Seq<char>) -> nat
    decreases es.len(),
{
    if es.len() == 0 {
        0
    } else {
        event_name_count(es.drop_last(), n) + if es.last().name == n {
            1nat
        } else {
            0nat
        }
    }
}

/// How many candidates map to the hostname `n`.
pub open spec fn candidate_count(cands: Seq<Seq<char>>, target: Seq<char>, n: Seq<char>) -> nat
    decreases cands.len(),
{
    if cands.len() == 0 {
        0
    } else {
        candidate_count(cands.drop_last(), target, n) + if host_of(cands.last(), target) == n {
            1nat
        } else {
            0nat
        }
    }
}

/// Found entries never repeat a name more often than the events do.
proof fn lemma_found_subs_name_count(es: Seq<Event>, n: Seq<char>)
    ensures
        name_count(found_subs(es), n) <= event_name_count(es, n),
    decreases es.len(),
{
    if es.len() > 0 {
        lemma_found_subs_name_count(es.drop_last(), n);
        if es.last().found {
            let rest = found_subs(es.drop_last());
            assert(found_subs(es) == rest.push(found_sub(es.last())));
            assert(rest.push(found_sub(es.last())).drop_last() =~= rest);
        }
    }
}

/// The events of a run name each candidate's hostname exactly once.
proof fn lemma_events_name_count(
    cands: Seq<Seq<char>>,
    target: Seq<char>,
    outs: Seq<ResolveOutcome>,
    n: Seq<char>,
)
    requires
        outs.len() == cands.len(),
    ensures
        event_name_count(events_of(cands, target, outs), n) == candidate_count(cands, target, n),
    decreases cands.len(),
{
    let es = events_of(cands, target, outs);
    if cands.len() > 0 {
        lemma_events_name_count(cands.drop_last(), target, outs.drop_last(), n);
        assert(es.drop_last() =~= events_of(cands.drop_last(), target, outs.drop_last()));
        assert(es.last().name == host_of(cands.last(), target));
    }
}

/// Removing one event removes exactly its contribution to a name's count.
proof fn lemma_event_name_count_remove(es: Seq<Event>, j: int, n: Seq<char>)
    requires
        0 <= j < es.len(),
    ensures
        event_name_count(es, n) == event_name_count(es.remove(j), n) + if es[j].name == n {
            1nat
        } else {
            0nat
        },
    decreases es.len(),
{
    if j == es.len() - 1 {
        assert(es.remove(j) =~= es.drop_last());
    } else {
        assert(es.remove(j).drop_last() =~= es.drop_last().remove(j));
        assert(es.remove(j).last() == es.last());
        assert(es.drop_last()[j] == es[j]);
        lemma_event_name_count_remove(es.drop_last(), j, n);
    }
}

/// Two interleavings of the same events name each hostname equally often.
proof fn lemma_event_name_count_permutes(es1: Seq<Event>, es2: Seq<Event>, n: Seq<char>)
    requires
        es1.to_multiset() == es2.to_multiset(),
    ensures
        event_name_count(es1, n) == event_name_count(es2, n),
    decreases es1.len(),
{
    broadcast use vstd::multiset::group_multiset_axioms;

    es1.to_multiset_ensures();
    es2.to_multiset_ensures();
    if es1.len() == 0 {
        assert(es2.len() == 0);
    } else {
        let x = es1.last();
        assert(es1.contains(x));
        assert(es2.to_multiset().count(x) > 0);
        assert(es2.contains(x));
        let j = choose|j: int| 0 <= j < es2.len() && es2[j] == x;
        es1.drop_last().to_multiset_ensures();
        assert(es1.drop_last().push(x) =~= es1);
        assert(es1.to_multiset() =~= es1.drop_last().to_multiset().insert(x));
        assert(es2.remove(j).to_multiset() =~= es2.to_multiset().remove(x));
        let d = es1.drop_last().to_multiset();
        assert(d.insert(x).remove(x) =~= d);
        assert(es2.remove(j).to_multiset() == d);
        lemma_event_name_count_permutes(es1.drop_last(), es2.remove(j), n);
        lemma_event_name_count_remove(es2, j, n);
    }
}

/// The report reflects input multiplicity: no name appears among the
/// report's entries more often than a candidate mapping to it appears in
/// the input list, for any interleaving of the run's events. In
/// particular, two entries share a name only when the input list held
/// that candidate more than once.
pub proof fn lemma_report_reflects_input_multiplicity(
    cands: Seq<Seq<char>>,
    target: Seq<char>,
    outs: Seq<ResolveOutcome>,
    root_name: Seq<char>,
    root_addrs: Seq<Address>,
    es: Seq<Event>,
    n: Seq<char>,
)
    requires
        outs.len() == cands.len(),
        es.to_multiset() == events_of(cands, target, outs).to_multiset(),
    ensures
        name_count(run_events(init_report(root_name, root_addrs), es).subdomains, n)
            <= candidate_count(cands, target, n),
{
    lemma_run_events_shape(init_report(root_name, root_addrs), es);
    assert(run_events(init_report(root_name, root_addrs), es).subdomains =~= found_subs(es));
    lemma_found_subs_name_count(es, n);
    lemma_event_name_count_permutes(es, events_of(cands, target, outs), n);
    lemma_events_name_count(cands, target, outs, n);
}

/// The progress counter reaches exactly the number of candidates: a run
/// over `cands` applies one event per candidate, and any interleaving of
/// the same events — whatever the number of workers — applies just as
/// many.
pub proof fn lemma_progress_reaches_total(
    cands: Seq<Seq<char>>,
    target: Seq<char>,
    outs: Seq<ResolveOutcome>,
    es: Seq<Event>,
)
    requires
        outs.len() == cands.len(),
        es.to_multiset() == events_of(cands, target, outs).to_multiset(),
    ensures
        es.len() == cands.len(),
{
    es.to_multiset_ensures();
    events_of(cands, target, outs).to_multiset_ensures();
}

/// The set of subdomain entries the found events of `es` establish.
pub open spec fn discovered(es: Seq<Event>) -> Set<SubdomainView> {
    Set::new(
        |sv: SubdomainView|
            exists|i: int| 0 <= i < es.len() && (#[trigger] es[i]).found && found_sub(es[i]) == sv,
    )
}

/// Any event of one interleaving occurs in any other interleaving of the
/// same work, so the discovery it contributes is common to both.
proof fn lemma_discovered_subset(es1: Seq<Event>, es2: Seq<Event>)
    requires
        es1.to_multiset() == es2.to_multiset(),
    ensures
        forall|sv: SubdomainView| discovered(es1).contains(sv) ==> discovered(es2).contains(sv),
{
    assert forall|sv: SubdomainView| discovered(es1).contains(sv)
        implies discovered(es2).contains(sv) by {
        let i = choose|i: int| 0 <= i < es1.len() && (#[trigger] es1[i]).found
            && found_sub(es1[i]) == sv;
        assert(es1.contains(es1[i]));
        es1.to_multiset_ensures();
        es2.to_multiset_ensures();
        assert(es2.to_multiset().count(es1[i]) > 0);
        assert(es2.contains(es1[i]));
        let j = choose|j: int| 0 <= j < es2.len() && es2[j] == es1[i];
        assert(0 <= j < es2.len() && es2[j].found && found_sub(es2[j]) == sv);
    }
}

/// Concurrency safety: two runs that process the same events — any two
/// interleavings of the same work, whatever the number of workers —
/// process the same number of candidates and discover the same set of
/// subdomains.
pub proof fn lemma_order_independent(es1: Seq<Event>, es2: Seq<Event>)
    requires
        es1.to_multiset() == es2.to_multiset(),
    ensures
        es1.len() == es2.len(),
        discovered(es1) == discovered(es2),
{
    es1.to_multiset_ensures();
    es2.to_multiset_ensures();
    lemma_discovered_subset(es1, es2);
    lemma_discovered_subset(es2, es1);
    assert(discovered(es1) =~= discovered(es2));
}

/// The finished report holds exactly the discovered set: an entry stands
/// in the report's subdomains if and only if some found event established
/// it. No result is lost, none is invented.
pub proof fn lemma_report_is_discovered(
    root_name: Seq<char>,
    root_addrs: Seq<Address>,
    es: Seq<Event>,
)
    ensures
        run_events(init_report(root_name, root_addrs), es).subdomains.to_set() == discovered(es),
{
    let rep = run_events(init_report(root_name, root_addrs), es);
    lemma_run_events_shape(init_report(root_name, root_addrs), es);
    assert(rep.subdomains =~= found_subs(es));
    lemma_found_subs_membership(es);
    lemma_found_subs_complete(es);
    assert forall|sv: SubdomainView| rep.subdomains.to_set().contains(sv)
        implies discovered(es).contains(sv) by {
        let k = choose|k: int| 0 <= k < rep.subdomains.len() && rep.subdomains[k] == sv;
        assert(found_subs(es)[k] == sv);
        let i = choose|i: int| 0 <= i < es.len() && (#[trigger] es[i]).found
            && found_subs(es)[k] == found_sub(es[i]);
        assert(0 <= i < es.len() && es[i].found && found_sub(es[i]) == sv);
    }
    assert forall|sv: SubdomainView| discovered(es).contains(sv)
        implies rep.subdomains.to_set().contains(sv) by {
        let i = choose|i: int| 0 <= i < es.len() && (#[trigger] es[i]).found
            && found_sub(es[i]) == sv;
        assert(found_subs(es).contains(sv));
    }
    assert(rep.subdomains.to_set() =~= discovered(es));
}

/// A timed-out query changes nothing in the report: the candidate only
/// counts toward progress, and no other worker's discovery is affected.
pub proof fn lemma_timeout_leaves_report(r: RootDomainView, name: Seq<char>)
    ensures
        apply_event(r, event_of(name, ResolveOutcome::Timeout)) == r,
{
}

} // verus!
