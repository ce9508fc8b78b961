use soshari::classify::{classify, QuadrantResult};
use soshari::codec::{decode_store, encode_store, load_store};
use soshari::store::{PeerAssessmentError, Store, SubjectRecord};
use soshari::traitset::TraitSet;
use soshari::vocab::{names_distinct, Vocabulary};

fn strings(names: &[&str]) -> Vec<String> {
    names.iter().map(|s| s.to_string()).collect()
}

fn vocab(names: &[&str]) -> Vocabulary {
    let list = strings(names);
    assert!(names_distinct(&list));
    Vocabulary::new(list).unwrap()
}

fn entries(pairs: &[(&str, u64)]) -> Vec<(String, u64)> {
    pairs.iter().map(|(s, n)| (s.to_string(), *n)).collect()
}

fn classify_in(store: &Store, vocab: &Vocabulary, id: u64) -> QuadrantResult {
    classify(vocab, store.get(id).unwrap())
}

#[test]
fn upsert_creates_then_replaces() {
    let v = vocab(&["brave", "calm", "shy"]);
    let mut store = Store::new();
    assert_eq!(store.len(), 0);
    store.upsert_own(7, TraitSet::from_names(&v, &strings(&["brave"])));
    assert_eq!(store.len(), 1);
    let first = store.get(7).unwrap();
    assert_eq!(first.own.unwrap().to_names(&v), strings(&["brave"]));
    assert_eq!(first.peers.len(), 0);
    // Second upsert for the same id replaces rather than merges.
    store.upsert_own(7, TraitSet::from_names(&v, &strings(&["calm"])));
    assert_eq!(store.len(), 1);
    let second = store.get(7).unwrap();
    assert_eq!(second.own.unwrap().to_names(&v), strings(&["calm"]));
}

#[test]
fn second_upsert_fully_determines_classification() {
    let v = vocab(&["brave", "calm", "shy"]);
    let mut store = Store::new();
    store.upsert_own(7, TraitSet::from_names(&v, &strings(&["brave", "shy"])));
    store.upsert_own(7, TraitSet::from_names(&v, &strings(&["calm"])));
    let q = classify_in(&store, &v, 7);
    // With no peers, facade is exactly the second set; nothing of the
    // first submission survives.
    assert_eq!(q.facade, strings(&["calm"]));
    assert_eq!(q.unknown, strings(&["brave", "shy"]));
}

#[test]
fn upsert_preserves_peer_list() {
    let v = vocab(&["brave", "calm", "shy"]);
    let mut store = Store::new();
    store.upsert_own(7, TraitSet::from_names(&v, &strings(&["brave"])));
    store
        .append_peer_assessment(7, 8, TraitSet::from_names(&v, &strings(&["brave"])))
        .unwrap();
    store.upsert_own(7, TraitSet::from_names(&v, &strings(&["calm"])));
    assert_eq!(store.get(7).unwrap().peers.len(), 1);
}

#[test]
fn peer_assessment_requires_registered_target() {
    let v = vocab(&["brave", "calm", "shy"]);
    let mut store = Store::new();
    let r = store.append_peer_assessment(7, 8, TraitSet::from_names(&v, &strings(&["brave"])));
    assert_eq!(r, Err(PeerAssessmentError::TargetNotFound));
    assert_eq!(store.len(), 0);
}

#[test]
fn self_assessment_through_peer_path_is_rejected() {
    let v = vocab(&["brave", "calm", "shy"]);
    let mut store = Store::new();
    store.upsert_own(7, TraitSet::from_names(&v, &strings(&["brave"])));
    let r = store.append_peer_assessment(7, 7, TraitSet::from_names(&v, &strings(&["shy"])));
    assert_eq!(r, Err(PeerAssessmentError::SelfAssessmentRejected));
    // The store is unchanged: no peer entry landed.
    assert_eq!(store.len(), 1);
    assert_eq!(store.get(7).unwrap().peers.len(), 0);
    assert_eq!(store.get(7).unwrap().own.unwrap().to_names(&v), strings(&["brave"]));
}

#[test]
fn repeated_peer_assessment_doubles_counts() {
    let v = vocab(&["brave", "calm", "shy"]);
    let mut store = Store::new();
    store.upsert_own(7, TraitSet::from_names(&v, &strings(&["brave"])));
    let same = TraitSet::from_names(&v, &strings(&["brave", "shy"]));
    store.append_peer_assessment(7, 8, same).unwrap();
    store.append_peer_assessment(7, 8, same).unwrap();
    // No deduplication: both entries are retained...
    assert_eq!(store.get(7).unwrap().peers.len(), 2);
    // ...and each contributes to the corroboration counts.
    let q = classify_in(&store, &v, 7);
    assert_eq!(q.arena, entries(&[("brave", 2)]));
    assert_eq!(q.blind, entries(&[("shy", 2)]));
}

#[test]
fn quadrants_for_two_peers() {
    // Subject X self-selects {brave, calm}; peer A submits {brave, shy};
    // peer B submits {brave}.
    let v = vocab(&["brave", "calm", "shy"]);
    let mut store = Store::new();
    store.upsert_own(1, TraitSet::from_names(&v, &strings(&["brave", "calm"])));
    store
        .append_peer_assessment(1, 2, TraitSet::from_names(&v, &strings(&["brave", "shy"])))
        .unwrap();
    store
        .append_peer_assessment(1, 3, TraitSet::from_names(&v, &strings(&["brave"])))
        .unwrap();
    let q = classify_in(&store, &v, 1);
    assert_eq!(q.arena, entries(&[("brave", 2)]));
    assert_eq!(q.blind, entries(&[("shy", 1)]));
    assert_eq!(q.facade, strings(&["calm"]));
    assert_eq!(q.unknown, Vec::<String>::new());
}

#[test]
fn quadrant_lists_come_in_vocabulary_order() {
    let v = vocab(&["brave", "calm", "shy", "warm"]);
    let mut store = Store::new();
    store.upsert_own(1, TraitSet::from_names(&v, &strings(&["calm", "brave"])));
    store
        .append_peer_assessment(1, 2, TraitSet::from_names(&v, &strings(&["warm", "calm", "brave"])))
        .unwrap();
    store
        .append_peer_assessment(1, 3, TraitSet::from_names(&v, &strings(&["calm", "shy"])))
        .unwrap();
    let q = classify_in(&store, &v, 1);
    // Arena holds brave before calm whatever the submission order was.
    assert_eq!(q.arena, entries(&[("brave", 1), ("calm", 2)]));
    assert_eq!(q.blind, entries(&[("shy", 1), ("warm", 1)]));
}

#[test]
fn quadrants_with_no_peers() {
    let v = vocab(&["brave", "calm", "shy"]);
    let mut store = Store::new();
    store.upsert_own(1, TraitSet::from_names(&v, &strings(&["calm"])));
    let q = classify_in(&store, &v, 1);
    assert_eq!(q.arena, Vec::<(String, u64)>::new());
    assert_eq!(q.blind, Vec::<(String, u64)>::new());
    assert_eq!(q.facade, strings(&["calm"]));
    assert_eq!(q.unknown, strings(&["brave", "shy"]));
}

#[test]
fn classification_without_self_assessment() {
    // A record created by hand with peer data but no own set still has a
    // well-defined, all-blind-or-unknown result.
    let v = vocab(&["brave", "calm", "shy"]);
    let rec = SubjectRecord {
        id: 1,
        own: None,
        peers: Vec::new(),
    };
    let q = classify(&v, &rec);
    assert!(q.arena.is_empty());
    assert!(q.blind.is_empty());
    assert!(q.facade.is_empty());
    assert_eq!(q.unknown, strings(&["brave", "calm", "shy"]));
}

#[test]
fn quadrants_partition_the_vocabulary() {
    let v = vocab(&["brave", "calm", "shy", "warm", "wise"]);
    let mut store = Store::new();
    store.upsert_own(1, TraitSet::from_names(&v, &strings(&["brave", "calm", "warm"])));
    store
        .append_peer_assessment(1, 2, TraitSet::from_names(&v, &strings(&["calm", "shy"])))
        .unwrap();
    store
        .append_peer_assessment(1, 3, TraitSet::from_names(&v, &strings(&["calm", "wise"])))
        .unwrap();
    let q = classify_in(&store, &v, 1);
    let mut all: Vec<String> = Vec::new();
    all.extend(q.arena.iter().map(|(s, _)| s.clone()));
    all.extend(q.blind.iter().map(|(s, _)| s.clone()));
    all.extend(q.facade.iter().cloned());
    all.extend(q.unknown.iter().cloned());
    all.sort();
    let mut expected = strings(&["brave", "calm", "shy", "warm", "wise"]);
    expected.sort();
    // Every trait lands in exactly one quadrant.
    assert_eq!(all, expected);
}

#[test]
fn get_distinguishes_subjects() {
    let v = vocab(&["brave", "calm", "shy"]);
    let mut store = Store::new();
    store.upsert_own(1, TraitSet::from_names(&v, &strings(&["brave"])));
    store.upsert_own(2, TraitSet::from_names(&v, &strings(&["calm"])));
    assert_eq!(store.len(), 2);
    assert_eq!(store.get(1).unwrap().own.unwrap().to_names(&v), strings(&["brave"]));
    assert_eq!(store.get(2).unwrap().own.unwrap().to_names(&v), strings(&["calm"]));
    assert!(store.get(3).is_none());
}

#[test]
fn store_round_trips_through_bytes() {
    let v = vocab(&["brave", "calm", "shy"]);
    let mut store = Store::new();
    store.upsert_own(1, TraitSet::from_names(&v, &strings(&["brave", "calm"])));
    store.upsert_own(2, TraitSet::from_names(&v, &strings(&["shy"])));
    let dup = TraitSet::from_names(&v, &strings(&["brave"]));
    store.append_peer_assessment(1, 2, dup).unwrap();
    store.append_peer_assessment(1, 2, dup).unwrap();
    store
        .append_peer_assessment(2, 1, TraitSet::from_names(&v, &strings(&["calm", "shy"])))
        .unwrap();
    let bytes = encode_store(&store);
    let back = decode_store(&bytes).unwrap();
    assert_eq!(back.len(), 2);
    let r1 = back.get(1).unwrap();
    assert_eq!(r1.own.unwrap().to_names(&v), strings(&["brave", "calm"]));
    assert_eq!(r1.peers.len(), 2);
    assert_eq!(r1.peers[0].assessor, 2);
    assert_eq!(r1.peers[0].set, dup);
    assert_eq!(r1.peers[1].assessor, 2);
    assert_eq!(r1.peers[1].set, dup);
    let r2 = back.get(2).unwrap();
    assert_eq!(r2.own.unwrap().to_names(&v), strings(&["shy"]));
    assert_eq!(r2.peers.len(), 1);
    assert_eq!(r2.peers[0].assessor, 1);
}

#[test]
fn absent_own_set_round_trips() {
    let mut store = Store::new();
    store.upsert_own(9, TraitSet::empty());
    let bytes = encode_store(&store);
    let back = decode_store(&bytes).unwrap();
    assert!(back.get(9).unwrap().own.unwrap().is_empty());
    // An empty store round-trips too.
    let empty_bytes = encode_store(&Store::new());
    assert_eq!(decode_store(&empty_bytes).unwrap().len(), 0);
}

#[test]
fn malformed_bytes_are_rejected() {
    assert!(decode_store(&Vec::new()).is_none());
    assert!(decode_store(&vec![1, 2, 3]).is_none());
    // A claimed record count with no records behind it.
    assert!(decode_store(&vec![5, 0, 0, 0, 0, 0, 0, 0]).is_none());
    // Trailing garbage after a valid store is rejected.
    let mut bytes = encode_store(&Store::new());
    bytes.push(0);
    assert!(decode_store(&bytes).is_none());
}

#[test]
fn loading_from_nothing_yields_an_empty_store() {
    let store = load_store(None);
    assert_eq!(store.len(), 0);
    // Unparseable content falls back to the empty store as well.
    let store = load_store(Some(&vec![0xff, 0x00]));
    assert_eq!(store.len(), 0);
}
