use hashcrack::engine::{next_phase, process_candidate, search, WorkerPhase};
use hashcrack::hashing::{gen_hash, HashMode};
use hashcrack::targets::TargetSet;
use sha2::{Digest, Sha256};

fn b(s: &str) -> Vec<u8> {
    s.as_bytes().to_vec()
}

fn sha256_hex(s: &str) -> Vec<u8> {
    hex::encode(Sha256::digest(s.as_bytes())).into_bytes()
}

fn load_targets(lines: Vec<Vec<u8>>) -> TargetSet {
    TargetSet::load(&lines).expect("targets must load")
}

#[test]
fn single_target_found() {
    // target digest = SHA-256("password123"); expect exactly one match event
    // for "password123" with the correct digest, and no unresolved target.
    let mut targets = load_targets(vec![sha256_hex("password123")]);
    let wordlist = vec![b("hunter2"), b("password123"), b("letmein")];
    let events = search(&mut targets, &wordlist, HashMode::Sha256);
    assert_eq!(events.len(), 1);
    assert_eq!(events[0].candidate, b("password123"));
    assert_eq!(events[0].digest, Sha256::digest(b"password123").to_vec());
    assert!(targets.is_empty());
    assert_eq!(targets.unresolved().len(), 0);
}

#[test]
fn one_found_one_unresolved() {
    // targets = {SHA-256("a"), SHA-256("zzz")}; wordlist = ["a","b","c"];
    // expect one match ("a") and SHA-256("zzz") reported unresolved.
    let mut targets = load_targets(vec![sha256_hex("a"), sha256_hex("zzz")]);
    let wordlist = vec![b("a"), b("b"), b("c")];
    let events = search(&mut targets, &wordlist, HashMode::Sha256);
    assert_eq!(events.len(), 1);
    assert_eq!(events[0].candidate, b("a"));
    assert_eq!(events[0].digest, Sha256::digest(b"a").to_vec());
    let unresolved = targets.unresolved();
    assert_eq!(unresolved.len(), 1);
    assert_eq!(unresolved[0], Sha256::digest(b"zzz").to_vec());
}

#[test]
fn all_targets_found_when_all_preimages_listed() {
    let mut targets = load_targets(vec![
        sha256_hex("alpha"),
        sha256_hex("bravo"),
        sha256_hex("charlie"),
    ]);
    let wordlist = vec![b("alpha"), b("bravo"), b("charlie")];
    let events = search(&mut targets, &wordlist, HashMode::Sha256);
    assert_eq!(events.len(), 3);
    assert!(targets.is_empty());
}

#[test]
fn disjoint_targets_all_unresolved() {
    let mut targets = load_targets(vec![sha256_hex("nothing-here")]);
    let wordlist = vec![b("a"), b("b"), b("c")];
    let events = search(&mut targets, &wordlist, HashMode::Sha256);
    assert_eq!(events.len(), 0);
    assert_eq!(targets.len(), 1);
    assert_eq!(targets.unresolved()[0], Sha256::digest(b"nothing-here").to_vec());
}

#[test]
fn duplicate_candidates_match_at_most_once() {
    // Two candidates with the same digest: exactly one match event, and the
    // second is a non-match because the target was already removed.
    let mut targets = load_targets(vec![sha256_hex("pw")]);
    let wordlist = vec![b("pw"), b("pw"), b("pw")];
    let events = search(&mut targets, &wordlist, HashMode::Sha256);
    assert_eq!(events.len(), 1);
    assert!(targets.is_empty());
}

#[test]
fn empty_wordlist_matches_nothing() {
    let mut targets = load_targets(vec![sha256_hex("a")]);
    let events = search(&mut targets, &vec![], HashMode::Sha256);
    assert_eq!(events.len(), 0);
    assert_eq!(targets.len(), 1);
}

#[test]
fn process_candidate_claims_exactly_once() {
    let mut targets = load_targets(vec![sha256_hex("secret")]);
    let candidate = b("secret");
    let first = process_candidate(&mut targets, &candidate, HashMode::Sha256);
    let again = process_candidate(&mut targets, &candidate, HashMode::Sha256);
    let ev = first.expect("first probe must claim the target");
    assert_eq!(ev.candidate, b("secret"));
    assert_eq!(ev.digest, Sha256::digest(b"secret").to_vec());
    assert!(again.is_none());
    assert!(targets.is_empty());
}

#[test]
fn process_candidate_miss_changes_nothing() {
    let mut targets = load_targets(vec![sha256_hex("secret")]);
    let miss = process_candidate(&mut targets, &b("guess"), HashMode::Sha256);
    assert!(miss.is_none());
    assert_eq!(targets.len(), 1);
}

#[test]
fn search_works_per_mode() {
    for mode in [HashMode::Sha256, HashMode::Sha512, HashMode::Md5] {
        let digest_hex = hex::encode(gen_hash(b"letmein", mode)).into_bytes();
        let mut targets = load_targets(vec![digest_hex]);
        let events = search(&mut targets, &vec![b("nope"), b("letmein")], mode);
        assert_eq!(events.len(), 1);
        assert_eq!(events[0].candidate, b("letmein"));
        assert!(targets.is_empty());
    }
}

#[test]
fn running_worker_cancels_on_stop_signal() {
    // Once the signal is set, a running worker cancels without evaluating
    // another candidate, whatever else it observed.
    for has_candidate in [false, true] {
        for claimed in [false, true] {
            for single in [false, true] {
                let next = next_phase(WorkerPhase::Running, true, has_candidate, claimed, single);
                assert_eq!(next, WorkerPhase::Cancelled);
            }
        }
    }
}

#[test]
fn running_worker_exhausts_without_candidate() {
    assert_eq!(
        next_phase(WorkerPhase::Running, false, false, false, false),
        WorkerPhase::Exhausted
    );
    assert_eq!(
        next_phase(WorkerPhase::Running, false, false, true, true),
        WorkerPhase::Exhausted
    );
}

#[test]
fn running_worker_stops_after_single_target_claim() {
    assert_eq!(
        next_phase(WorkerPhase::Running, false, true, true, true),
        WorkerPhase::Cancelled
    );
    // in multi-target mode it keeps running
    assert_eq!(
        next_phase(WorkerPhase::Running, false, true, true, false),
        WorkerPhase::Running
    );
    assert_eq!(
        next_phase(WorkerPhase::Running, false, true, false, true),
        WorkerPhase::Running
    );
}

#[test]
fn finished_phases_reach_done() {
    for phase in [WorkerPhase::Exhausted, WorkerPhase::Cancelled, WorkerPhase::Done] {
        assert_eq!(next_phase(phase, false, true, false, false), WorkerPhase::Done);
        assert_eq!(next_phase(phase, true, false, true, true), WorkerPhase::Done);
    }
}
