//! The dictionary-search engine.
//!
//! A search pulls candidates, hashes each one, and probes the target set
//! with an atomic check-and-remove, so that every target is claimed at most
//! once even when several candidates share a digest.  `search` runs one
//! partition to exhaustion (or until every target is found) and is the
//! single-worker engine; `process_candidate` is the step a concurrent driver
//! performs per candidate under its lock, and `next_phase` is the worker
//! lifecycle decision taken between two candidate evaluations.

use vstd::prelude::*;
use crate::bytes::{byte_views, copy_bytes};
use crate::hashing::{digest_of, gen_hash, HashMode};
use crate::targets::TargetSet;

verus! {

/// The report of one recovered preimage: a candidate whose digest equalled a
/// target that was still outstanding.  The caller pairs it with its own
/// elapsed-time reading when reporting.
pub struct MatchEvent {
    pub candidate: Vec<u8>,
    pub digest: Vec<u8>,
}

/// The set of digests of the candidates `cs` under `mode`.
pub open spec fn digest_set(mode: HashMode, cs: Seq<Seq<u8>>) -> Set<Seq<u8>> {
    Set::new(
        |d: Seq<u8>| exists|j: int| 0 <= j < cs.len() && digest_of(mode, #[trigger] cs[j]) == d,
    )
}

/// The set of digests that a sequence of match events reports.
pub open spec fn event_digests(evs: Seq<MatchEvent>) -> Set<Seq<u8>> {
    evs.map_values(|e: MatchEvent| e.digest@).to_set()
}

proof fn lemma_event_push(evs: Seq<MatchEvent>, e: MatchEvent)
    ensures
        event_digests(evs.push(e)) =~= event_digests(evs).insert(e.digest@),
{
    let t = evs.push(e);
    let tv = t.map_values(|ev: MatchEvent| ev.digest@);
    let ev0 = evs.map_values(|ev: MatchEvent| ev.digest@);
    assert forall|a: Seq<u8>| tv.to_set().contains(a) implies event_digests(evs).insert(
        e.digest@,
    ).contains(a) by {
        let k = choose|k: int| 0 <= k < tv.len() && tv[k] == a;
        if k < evs.len() {
            assert(ev0[k] == a);
        }
    }
    assert forall|a: Seq<u8>| event_digests(evs).insert(e.digest@).contains(a) implies tv.to_set()
        .contains(a) by {
        if a == e.digest@ {
            assert(tv[evs.len() as int] == a);
        } else {
            let k = choose|k: int| 0 <= k < ev0.len() && ev0[k] == a;
            assert(tv[k] == a);
        }
    }
}

/// One evaluation step: hash `candidate` and atomically claim a matching
/// outstanding target.  A match event is returned exactly when the digest
/// was still outstanding, and that digest is no longer outstanding after.
pub fn process_candidate(targets: &mut TargetSet, candidate: &Vec<u8>, mode: HashMode) -> (m:
    Option<MatchEvent>)
    requires
        old(targets).wf(),
    ensures
        final (targets).wf(),
        final (targets)@ == old(targets)@.remove(digest_of(mode, candidate@)),
        m is Some <==> old(targets)@.contains(digest_of(mode, candidate@)),
        m matches Some(ev) ==> ev.candidate@ == candidate@ && ev.digest@ == digest_of(
            mode,
            candidate@,
        ),
{
    let digest = gen_hash(candidate.as_slice(), mode);
    if targets.remove(&digest) {
        Some(MatchEvent { candidate: copy_bytes(candidate), digest })
    } else {
        None
    }
}

/// Run one candidate sequence against the target set, in order, until the
/// candidates are exhausted or every target has been found.
///
/// The contract pins the outcome down exactly: afterwards the outstanding
/// set is the old one minus every candidate digest; the events report
/// precisely the targets that some candidate's digest hit, each exactly
/// once; and every event pairs a candidate from the list with its digest.
pub fn search(targets: &mut TargetSet, candidates: &Vec<Vec<u8>>, mode: HashMode) -> (events: Vec<
    MatchEvent,
>)
    requires
        old(targets).wf(),
    ensures
        final (targets).wf(),
        final (targets)@ == old(targets)@.difference(
            digest_set(mode, byte_views(candidates@)),
        ),
        event_digests(events@) == old(targets)@.intersect(
            digest_set(mode, byte_views(candidates@)),
        ),
        forall|k: int|
            0 <= k < events@.len() ==> {
                &&& old(targets)@.contains(#[trigger] events@[k].digest@)
                &&& byte_views(candidates@).contains(events@[k].candidate@)
                &&& events@[k].digest@ == digest_of(mode, events@[k].candidate@)
            },
        forall|k1: int, k2: int|
            0 <= k1 < k2 < events@.len() ==> events@[k1].digest@ != events@[k2].digest@,
{
    let ghost t0 = old(targets)@;
    let ghost cs = byte_views(candidates@);
    let mut events: Vec<MatchEvent> = Vec::new();
    let mut i: usize = 0;
    proof {
        assert(targets@ =~= t0.difference(digest_set(mode, cs.take(0))));
        assert(event_digests(events@) =~= t0.intersect(digest_set(mode, cs.take(0))));
    }
    while i < candidates.len()
        invariant
            i <= candidates@.len(),
            cs == byte_views(candidates@),
            targets.wf(),
            targets@ == t0.difference(digest_set(mode, cs.take(i as int))),
            event_digests(events@) == t0.intersect(digest_set(mode, cs.take(i as int))),
            forall|k: int|
                0 <= k < events@.len() ==> {
                    &&& t0.contains(#[trigger] events@[k].digest@)
                    &&& cs.contains(events@[k].candidate@)
                    &&& events@[k].digest@ == digest_of(mode, events@[k].candidate@)
                    &&& !targets@.contains(events@[k].digest@)
                },
            forall|k1: int, k2: int|
                0 <= k1 < k2 < events@.len() ==> events@[k1].digest@ != events@[k2].digest@,
        ensures
            i == candidates@.len() || targets@.len() == 0,
        decreases candidates@.len() - i,
    {
        if targets.is_empty() {
            break ;
        }
        let ghost tprev = targets@;
        let ghost eprev = events@;
        let m = process_candidate(targets, &candidates[i], mode);
        let ghost dg = digest_of(mode, cs[i as int]);
        proof {
            assert(cs[i as int] == candidates@[i as int]@);
        }
        if let Some(ev) = m {
            events.push(ev);
        }
        proof {
            let di = digest_set(mode, cs.take(i as int));
            let dn = digest_set(mode, cs.take(i as int + 1));
            assert forall|a: Seq<u8>| #[trigger] dn.contains(a) implies di.contains(a) || a
                == dg by {
                let j = choose|j: int|
                    0 <= j < cs.take(i as int + 1).len() && digest_of(
                        mode,
                        #[trigger] cs.take(i as int + 1)[j],
                    ) == a;
                if j < i {
                    assert(cs.take(i as int)[j] == cs[j]);
                }
            }
            assert forall|a: Seq<u8>| di.contains(a) implies dn.contains(a) by {
                let j = choose|j: int|
                    0 <= j < cs.take(i as int).len() && digest_of(
                        mode,
                        #[trigger] cs.take(i as int)[j],
                    ) == a;
                assert(cs.take(i as int + 1)[j] == cs[j]);
            }
            assert(dn.contains(dg)) by {
                assert(cs.take(i as int + 1)[i as int] == cs[i as int]);
            }
            assert(targets@ =~= t0.difference(dn));
            let elen = events@.len() as int;
            if m is Some {
                assert(events@ == eprev.push(events@[elen - 1]));
                assert(events@[elen - 1].candidate@ == cs[i as int]);
                assert(events@[elen - 1].digest@ == dg);
                assert(cs.contains(events@[elen - 1].candidate@)) by {
                    assert(cs[i as int] == events@[elen - 1].candidate@);
                }
            }
            assert forall|k: int| 0 <= k < events@.len() implies {
                &&& t0.contains(#[trigger] events@[k].digest@)
                &&& cs.contains(events@[k].candidate@)
                &&& events@[k].digest@ == digest_of(mode, events@[k].candidate@)
                &&& !targets@.contains(events@[k].digest@)
            } by {
                if m is Some && k == elen - 1 {
                    assert(!targets@.contains(dg));
                } else {
                    assert(events@[k] == eprev[k]);
                    assert(!tprev.contains(eprev[k].digest@));
                }
            }
            assert forall|k1: int, k2: int|
                0 <= k1 < k2 < events@.len() implies events@[k1].digest@ != events@[k2].digest@ by {
                if m is Some && k2 == elen - 1 {
                    assert(events@[k1] == eprev[k1]);
                    assert(!tprev.contains(eprev[k1].digest@));
                    assert(tprev.contains(dg));
                } else {
                    assert(events@[k1] == eprev[k1]);
                    assert(events@[k2] == eprev[k2]);
                }
            }
            if m is Some {
                assert(tprev.contains(dg));
                assert(t0.contains(dg) && !di.contains(dg));
                lemma_event_push(eprev, events@[eprev.len() as int]);
                assert(event_digests(events@) =~= t0.intersect(dn));
            } else {
                assert(!tprev.contains(dg));
                assert(event_digests(events@) =~= t0.intersect(dn));
            }
        }
        i += 1;
    }
    proof {
        let dfull = digest_set(mode, cs);
        let di = digest_set(mode, cs.take(i as int));
        if i == candidates@.len() {
            assert(cs.take(i as int) =~= cs);
        } else {
            assert forall|a: Seq<u8>| #[trigger] di.contains(a) implies dfull.contains(a) by {
                let j = choose|j: int|
                    0 <= j < cs.take(i as int).len() && digest_of(
                        mode,
                        #[trigger] cs.take(i as int)[j],
                    ) == a;
                assert(cs.take(i as int)[j] == cs[j]);
            }
            assert(targets@.finite()) by {
                targets.lemma_view_finite();
            }
            assert(targets@ =~= Set::<Seq<u8>>::empty());
            assert forall|a: Seq<u8>| t0.contains(a) && dfull.contains(a) implies event_digests(
                events@,
            ).contains(a) by {
                assert(!targets@.contains(a));
                assert(t0.contains(a) && !di.contains(a) ==> targets@.contains(a));
            }
            assert(targets@ =~= t0.difference(dfull));
            assert(event_digests(events@) =~= t0.intersect(dfull));
        }
    }
    events
}

/// The lifecycle of one search worker.
#[derive(Clone, Copy, Debug, PartialEq, Eq, Structural)]
pub enum WorkerPhase {
    /// Pulling and evaluating candidates.
    Running,
    /// The worker's partition ran out of candidates.
    Exhausted,
    /// The worker observed the termination signal (or, in single-target
    /// mode, claimed the one target) and stopped early.
    Cancelled,
    /// Terminal: the worker does nothing further.
    Done,
}

/// The decision a worker takes between two candidate evaluations, from what
/// it observed: the shared termination signal, whether its partition still
/// had a candidate, and whether that candidate claimed a match.
pub open spec fn next_phase_spec(
    phase: WorkerPhase,
    stop_seen: bool,
    has_candidate: bool,
    claimed_match: bool,
    single_target: bool,
) -> WorkerPhase {
    match phase {
        WorkerPhase::Running => {
            if stop_seen {
                WorkerPhase::Cancelled
            } else if !has_candidate {
                WorkerPhase::Exhausted
            } else if claimed_match && single_target {
                WorkerPhase::Cancelled
            } else {
                WorkerPhase::Running
            }
        },
        _ => WorkerPhase::Done,
    }
}

/// One transition of the worker state machine; a concurrent driver calls it
/// once per loop iteration with what it just observed.
pub fn next_phase(
    phase: WorkerPhase,
    stop_seen: bool,
    has_candidate: bool,
    claimed_match: bool,
    single_target: bool,
) -> (next: WorkerPhase)
    ensures
        next == next_phase_spec(phase, stop_seen, has_candidate, claimed_match, single_target),
{
    match phase {
        WorkerPhase::Running => {
            if stop_seen {
                WorkerPhase::Cancelled
            } else if !has_candidate {
                WorkerPhase::Exhausted
            } else if claimed_match && single_target {
                WorkerPhase::Cancelled
            } else {
                WorkerPhase::Running
            }
        },
        _ => WorkerPhase::Done,
    }
}

/// Law (complete recovery): when every target digest is some candidate's
/// digest, a full search leaves nothing unresolved and matches every target.
/// Read together with `search`: its outstanding set becomes empty and its
/// events cover the whole target set.
pub proof fn lemma_all_targets_found(mode: HashMode, t0: Set<Seq<u8>>, cs: Seq<Seq<u8>>)
    requires
        t0.subset_of(digest_set(mode, cs)),
    ensures
        t0.difference(digest_set(mode, cs)) == Set::<Seq<u8>>::empty(),
        t0.intersect(digest_set(mode, cs)) == t0,
{
    assert(t0.difference(digest_set(mode, cs)) =~= Set::<Seq<u8>>::empty());
    assert(t0.intersect(digest_set(mode, cs)) =~= t0);
}

/// Law (clean miss): when no candidate's digest is a target, a full search
/// leaves every target unresolved and emits no match event; it terminates
/// all the same, since `search` always returns.
pub proof fn lemma_no_target_found(mode: HashMode, t0: Set<Seq<u8>>, cs: Seq<Seq<u8>>)
    requires
        t0.disjoint(digest_set(mode, cs)),
    ensures
        t0.difference(digest_set(mode, cs)) == t0,
        t0.intersect(digest_set(mode, cs)) == Set::<Seq<u8>>::empty(),
{
    assert(t0.difference(digest_set(mode, cs)) =~= t0);
    assert(t0.intersect(digest_set(mode, cs)) =~= Set::<Seq<u8>>::empty());
}

/// Law (bounded cancellation): once the termination signal is set, a running
/// worker's next transition is `Cancelled` — whatever candidate it may still
/// hold and whether or not it just claimed a match — and every phase past
/// `Running` goes straight to `Done`.  So after the signal, each worker
/// reaches `Done` with at most its one in-flight candidate evaluated.
pub proof fn lemma_cancellation_bound(has_candidate: bool, claimed_match: bool, single_target: bool)
    ensures
        next_phase_spec(WorkerPhase::Running, true, has_candidate, claimed_match, single_target)
            == WorkerPhase::Cancelled,
        forall|stop: bool, has: bool, claimed: bool, single: bool|
            next_phase_spec(WorkerPhase::Cancelled, stop, has, claimed, single)
                == WorkerPhase::Done,
        forall|stop: bool, has: bool, claimed: bool, single: bool|
            next_phase_spec(WorkerPhase::Exhausted, stop, has, claimed, single)
                == WorkerPhase::Done,
{
}

} // verus!
