use soshari::traitset::TraitSet;
use soshari::vocab::{name_is_valid, names_distinct, Vocabulary, VocabularyError};

fn strings(names: &[&str]) -> Vec<String> {
    names.iter().map(|s| s.to_string()).collect()
}

fn vocab(names: &[&str]) -> Vocabulary {
    let list = strings(names);
    assert!(names_distinct(&list));
    Vocabulary::new(list).unwrap()
}

#[test]
fn vocabulary_accessors() {
    let v = vocab(&["brave", "calm", "shy"]);
    assert_eq!(v.len(), 3);
    assert_eq!(v.name_at(0), "brave");
    assert_eq!(v.name_at(1), "calm");
    assert_eq!(v.name_at(2), "shy");
    assert_eq!(v.index_of(&"calm".to_string()), Some(1));
    assert_eq!(v.index_of(&"bold".to_string()), None);
}

#[test]
fn vocabulary_exposes_its_name_list() {
    let v = vocab(&["brave", "calm", "shy"]);
    assert_eq!(v.names(), &strings(&["brave", "calm", "shy"]));
}

#[test]
fn vocabulary_too_large_is_rejected() {
    let names: Vec<String> = (0..65).map(|i| format!("trait{}", i)).collect();
    assert!(names_distinct(&names));
    assert_eq!(
        Vocabulary::new(names).err(),
        Some(VocabularyError::VocabularyTooLarge)
    );
}

#[test]
fn vocabulary_at_width_is_accepted() {
    let names: Vec<String> = (0..64).map(|i| format!("trait{}", i)).collect();
    assert!(names_distinct(&names));
    let v = Vocabulary::new(names).unwrap();
    assert_eq!(v.len(), 64);
}

#[test]
fn invalid_trait_names_are_rejected() {
    for bad in ["", "two words", "tab\tname", "line\nname"] {
        let names = strings(&["fine", bad]);
        assert!(names_distinct(&names));
        assert_eq!(
            Vocabulary::new(names).err(),
            Some(VocabularyError::InvalidTraitName)
        );
    }
}

#[test]
fn name_validity_check() {
    assert!(name_is_valid(&"self-assertive".to_string()));
    assert!(!name_is_valid(&"".to_string()));
    assert!(!name_is_valid(&"a b".to_string()));
}

#[test]
fn distinctness_check() {
    assert!(names_distinct(&strings(&["brave", "calm"])));
    assert!(!names_distinct(&strings(&["brave", "calm", "brave"])));
}

#[test]
fn names_round_trip_as_a_set() {
    let v = vocab(&["brave", "calm", "shy"]);
    let ts = TraitSet::from_names(&v, &strings(&["shy", "brave"]));
    // Back in vocabulary order, not insertion order.
    assert_eq!(ts.to_names(&v), strings(&["brave", "shy"]));
}

#[test]
fn unknown_names_are_silently_ignored() {
    let v = vocab(&["brave", "calm", "shy"]);
    let ts = TraitSet::from_names(&v, &strings(&["brave", "bogus"]));
    assert_eq!(ts.to_names(&v), strings(&["brave"]));
    let none = TraitSet::from_names(&v, &strings(&["bogus"]));
    assert!(none.is_empty());
}

#[test]
fn duplicate_selections_collapse() {
    let v = vocab(&["brave", "calm", "shy"]);
    let ts = TraitSet::from_names(&v, &strings(&["calm", "calm", "calm"]));
    assert_eq!(ts.to_names(&v), strings(&["calm"]));
    assert_eq!(ts.count(), 1);
}

#[test]
fn set_algebra_on_named_sets() {
    let v = vocab(&["brave", "calm", "shy"]);
    let a = TraitSet::from_names(&v, &strings(&["brave", "calm"]));
    let b = TraitSet::from_names(&v, &strings(&["calm", "shy"]));
    assert_eq!(a.union(&b).to_names(&v), strings(&["brave", "calm", "shy"]));
    assert_eq!(a.intersect(&b).to_names(&v), strings(&["calm"]));
    assert_eq!(a.difference(&b).to_names(&v), strings(&["brave"]));
    assert_eq!(a.complement(v.len()).to_names(&v), strings(&["shy"]));
}

#[test]
fn decomposition_is_consistent() {
    // A = (A ∩ B) ∪ (A \ B), and the two parts are disjoint.
    let v = vocab(&["brave", "calm", "shy", "warm"]);
    let a = TraitSet::from_names(&v, &strings(&["brave", "calm", "warm"]));
    let b = TraitSet::from_names(&v, &strings(&["calm", "shy"]));
    let inter = a.intersect(&b);
    let diff = a.difference(&b);
    assert_eq!(inter.union(&diff), a);
    assert!(inter.intersect(&diff).is_empty());
}

#[test]
fn counting_and_emptiness() {
    let v = vocab(&["brave", "calm", "shy"]);
    let empty = TraitSet::empty();
    assert!(empty.is_empty());
    assert_eq!(empty.count(), 0);
    let ts = TraitSet::from_names(&v, &strings(&["brave", "shy"]));
    assert!(!ts.is_empty());
    assert_eq!(ts.count(), 2);
    assert!(ts.contains(0));
    assert!(!ts.contains(1));
    assert!(ts.contains(2));
}

#[test]
fn equality_is_structural() {
    let v = vocab(&["brave", "calm", "shy"]);
    let a = TraitSet::from_names(&v, &strings(&["shy", "brave"]));
    let b = TraitSet::from_names(&v, &strings(&["brave", "shy"]));
    assert_eq!(a, b);
}
