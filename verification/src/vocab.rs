//! The trait vocabulary: an ordered, deduplicated list of trait names.
//!
//! Each name's position in the list is its permanent bit index in a
//! [`TraitSet`] for the lifetime of a persisted dataset; reordering the
//! vocabulary after data exists silently corrupts stored sets. The
//! vocabulary is built once, at configuration time, and is read-only
//! afterwards.

use vstd::prelude::*;

use crate::traitset::{TraitSet, WIDTH};

verus! {

/// Why a vocabulary could not be built.
#[derive(Clone, Copy, PartialEq, Eq, Structural, Debug)]
pub enum VocabularyError {
    /// The name list exceeds the bitset width.
    VocabularyTooLarge,
    /// A name is empty or holds whitespace.
    InvalidTraitName,
}

/// An ordered list of distinct, syntactically valid trait names, mapping
/// each name to its bit position and back.
pub struct Vocabulary {
    names: Vec<String>,
}

/// Whitespace for the purposes of trait-name validation.
pub open spec fn is_space_char(c: char) -> bool {
    c == ' ' || c == '\t' || c == '\n' || c == '\r'
}

/// A syntactically valid trait name: non-empty, no whitespace.
pub open spec fn valid_name(s: Seq<char>) -> bool {
    s.len() > 0 && forall|k: int| 0 <= k < s.len() ==> !is_space_char(s[k])
}

/// No two names of the list are equal.
pub open spec fn distinct_names(ns: Seq<Seq<char>>) -> bool {
    forall|i: int, j: int| 0 <= i < j < ns.len() ==> ns[i] != ns[j]
}

/// The character sequences of a list of strings.
pub open spec fn seq_views(names: Seq<String>) -> Seq<Seq<char>> {
    names.map_values(|s: String| s@)
}

/// Whether `n` occurs in `names`.
pub open spec fn contains_name(names: Seq<Seq<char>>, n: Seq<char>) -> bool {
    exists|j: int| 0 <= j < names.len() && names[j] == n
}

impl Vocabulary {
    /// The abstract contents: the name list, in order, as character
    /// sequences.
    pub closed spec fn view(&self) -> Seq<Seq<char>> {
        seq_views(self.names@)
    }

    /// Well-formedness: at most the bitset width, all names distinct and
    /// syntactically valid. Constructors establish this; the type offers
    /// no mutation.
    pub open spec fn wf(&self) -> bool {
        &&& self@.len() <= WIDTH
        &&& distinct_names(self@)
        &&& forall|i: int| 0 <= i < self@.len() ==> valid_name(self@[i])
    }

    /// Builds a vocabulary from an ordered list of distinct names.
    ///
    /// Fails with `VocabularyTooLarge` when the list exceeds the bitset
    /// width, and with `InvalidTraitName` when a name is empty or holds
    /// whitespace. Size is checked first.
    pub fn new(names: Vec<String>) -> (r: Result<Vocabulary, VocabularyError>)
        requires
            distinct_names(seq_views(names@)),
        ensures
            match r {
                Ok(v) => {
                    &&& v@ == seq_views(names@)
                    &&& v.wf()
                    &&& names@.len() <= WIDTH
                    &&& forall|i: int| 0 <= i < names@.len() ==> valid_name(names@[i]@)
                },
                Err(VocabularyError::VocabularyTooLarge) => names@.len() > WIDTH,
                Err(VocabularyError::InvalidTraitName) => {
                    &&& names@.len() <= WIDTH
                    &&& exists|i: int| 0 <= i < names@.len() && !valid_name(names@[i]@)
                },
            },
    {
        if names.len() as u64 > WIDTH {
            return Err(VocabularyError::VocabularyTooLarge);
        }
        let mut i: usize = 0;
        while i < names.len()
            invariant
                i <= names@.len(),
                names@.len() <= WIDTH,
                forall|k: int| 0 <= k < i ==> valid_name(names@[k]@),
            decreases names@.len() - i,
        {
            if !name_is_valid(&names[i]) {
                return Err(VocabularyError::InvalidTraitName);
            }
            i = i + 1;
        }
        Ok(Vocabulary { names })
    }

    /// Number of names, which is also the number of live bit positions.
    pub fn len(&self) -> (r: usize)
        ensures
            r == self@.len(),
    {
        self.names.len()
    }

    /// The name at position `i`.
    pub fn name_at(&self, i: usize) -> (r: &String)
        requires
            i < self@.len(),
        ensures
            r@ == self@[i as int],
    {
        &self.names[i]
    }

    /// The whole name list, in order; what a trait picker presents.
    pub fn names(&self) -> (r: &Vec<String>)
        ensures
            seq_views(r@) == self@,
    {
        &self.names
    }

    /// The position of `name`, if the vocabulary holds it.
    pub fn index_of(&self, name: &String) -> (r: Option<usize>)
        ensures
            match r {
                Some(k) => k < self@.len() && self@[k as int] == name@,
                None => forall|k: int| 0 <= k < self@.len() ==> self@[k] != name@,
            },
    {
        let mut i: usize = 0;
        while i < self.names.len()
            invariant
                i <= self@.len(),
                forall|k: int| 0 <= k < i ==> self@[k] != name@,
            decreases self@.len() - i,
        {
            if self.names[i] == *name {
                return Some(i);
            }
            i = i + 1;
        }
        None
    }
}

/// Whether a name is non-empty and free of whitespace.
pub fn name_is_valid(s: &String) -> (r: bool)
    ensures
        r == valid_name(s@),
{
    let n = s.as_str().unicode_len();
    if n == 0 {
        return false;
    }
    let mut i: usize = 0;
    while i < n
        invariant
            n == s@.len(),
            i <= n,
            forall|k: int| 0 <= k < i ==> !is_space_char(s@[k]),
        decreases n - i,
    {
        let c = s.as_str().get_char(i);
        if c == ' ' || c == '\t' || c == '\n' || c == '\r' {
            return false;
        }
        i = i + 1;
    }
    true
}

/// Whether no two names of the list are equal; lets a caller establish
/// the input contract of [`Vocabulary::new`] at run time.
pub fn names_distinct(names: &Vec<String>) -> (r: bool)
    ensures
        r == distinct_names(seq_views(names@)),
{
    let mut i: usize = 0;
    while i < names.len()
        invariant
            i <= names@.len(),
            forall|a: int, b: int| 0 <= a < b < i ==> names@[a]@ != names@[b]@,
        decreases names@.len() - i,
    {
        let mut j: usize = 0;
        while j < i
            invariant
                j <= i < names@.len(),
                forall|a: int, b: int| 0 <= a < b < i ==> names@[a]@ != names@[b]@,
                forall|b: int| 0 <= b < j ==> names@[b]@ != names@[i as int]@,
            decreases i - j,
        {
            if names[j] == names[i] {
                proof {
                    assert(seq_views(names@)[j as int] == seq_views(names@)[i as int]);
                }
                return false;
            }
            j = j + 1;
        }
        i = i + 1;
    }
    true
}

impl TraitSet {
    /// Converts a selection of names into a trait set over `vocab`.
    ///
    /// A name not present in the vocabulary is silently ignored — a
    /// deliberate permissive policy, so that stale or externally entered
    /// names never fail a submission.
    pub fn from_names(vocab: &Vocabulary, names: &Vec<String>) -> (r: TraitSet)
        requires
            vocab.wf(),
        ensures
            r@ =~= from_names_set(vocab@, seq_views(names@)),
    {
        let mut ts = TraitSet::empty();
        let mut k: usize = 0;
        while k < names.len()
            invariant
                vocab.wf(),
                k <= names@.len(),
                forall|i: int| #[trigger]
                    ts@.contains(i) == (0 <= i < vocab@.len() && contains_name(
                        seq_views(names@.take(k as int)),
                        vocab@[i],
                    )),
            decreases names@.len() - k,
        {
            let ghost prev_names = seq_views(names@.take(k as int));
            let ghost taken = seq_views(names@.take(k + 1));
            let ghost name_k = names@[k as int]@;
            proof {
                assert(taken =~= prev_names.push(name_k));
            }
            let found = vocab.index_of(&names[k]);
            match found {
                Some(idx) => {
                    ts = ts.with_bit(idx);
                    proof {
                        assert forall|i: int| #[trigger]
                            ts@.contains(i) == (0 <= i < vocab@.len() && contains_name(
                                taken,
                                vocab@[i],
                            )) by {
                            if 0 <= i < vocab@.len() {
                                lemma_contains_push(prev_names, name_k, vocab@[i]);
                                if vocab@[i] == name_k {
                                    // distinct names: only position idx carries name_k
                                    assert(i == idx);
                                }
                            }
                        }
                    }
                },
                None => {
                    proof {
                        assert forall|i: int| #[trigger]
                            ts@.contains(i) == (0 <= i < vocab@.len() && contains_name(
                                taken,
                                vocab@[i],
                            )) by {
                            if 0 <= i < vocab@.len() {
                                lemma_contains_push(prev_names, name_k, vocab@[i]);
                            }
                        }
                    }
                },
            }
            k = k + 1;
        }
        proof {
            assert(names@.take(names@.len() as int) =~= names@);
        }
        ts
    }

    /// Converts the set back to names, in vocabulary order.
    pub fn to_names(&self, vocab: &Vocabulary) -> (r: Vec<String>)
        requires
            vocab.wf(),
        ensures
            seq_views(r@) == selected_names(vocab@, *self, vocab@.len()),
    {
        let mut out: Vec<String> = Vec::new();
        let n = vocab.len();
        let mut i: usize = 0;
        while i < n
            invariant
                vocab.wf(),
                n == vocab@.len(),
                i <= n,
                seq_views(out@) =~= selected_names(vocab@, *self, i as nat),
            decreases n - i,
        {
            if self.contains(i) {
                let name = vocab.name_at(i).clone();
                out.push(name);
            }
            proof {
                assert(seq_views(out@) =~= selected_names(vocab@, *self, (i + 1) as nat));
            }
            i = i + 1;
        }
        out
    }
}

/// The set of positions whose name occurs in `names`.
pub open spec fn from_names_set(vocab: Seq<Seq<char>>, names: Seq<Seq<char>>) -> Set<int> {
    Set::new(|i: int| 0 <= i < vocab.len() && contains_name(names, vocab[i]))
}

/// The names of the positions below `n` that are in `ts`, in vocabulary
/// order.
pub open spec fn selected_names(vocab: Seq<Seq<char>>, ts: TraitSet, n: nat) -> Seq<Seq<char>>
    decreases n,
{
    if n == 0 {
        Seq::empty()
    } else {
        let prefix = selected_names(vocab, ts, (n - 1) as nat);
        if ts@.contains(n - 1) {
            prefix.push(vocab[n - 1])
        } else {
            prefix
        }
    }
}

/// A name occurs among the selected names of the first `n` positions
/// exactly when some such position is in the set and carries that name.
proof fn lemma_selected_names_membership(vocab: Seq<Seq<char>>, ts: TraitSet, n: nat, x: Seq<char>)
    requires
        n <= vocab.len(),
    ensures
        contains_name(selected_names(vocab, ts, n), x) == exists|i: int|
            0 <= i < n && ts@.contains(i) && vocab[i] == x,
    decreases n,
{
    if n > 0 {
        lemma_selected_names_membership(vocab, ts, (n - 1) as nat, x);
        let prefix = selected_names(vocab, ts, (n - 1) as nat);
        if ts@.contains(n - 1) {
            lemma_contains_push(prefix, vocab[n - 1], x);
        }
        if exists|i: int| 0 <= i < n && ts@.contains(i) && vocab[i] == x {
            let i = choose|i: int| 0 <= i < n && ts@.contains(i) && vocab[i] == x;
            if i < n - 1 {
                assert(contains_name(prefix, x));
            } else {
                assert(ts@.contains(n - 1) && vocab[n - 1] == x);
            }
        }
        if exists|i: int| 0 <= i < n - 1 && ts@.contains(i) && vocab[i] == x {
            let i = choose|i: int| 0 <= i < n - 1 && ts@.contains(i) && vocab[i] == x;
            assert(0 <= i < n && ts@.contains(i) && vocab[i] == x);
        }
    }
}

/// A name occurs in a list extended by one entry exactly when it occurs
/// in the list or is that entry.
proof fn lemma_contains_push(s: Seq<Seq<char>>, y: Seq<char>, x: Seq<char>)
    ensures
        contains_name(s.push(y), x) == (contains_name(s, x) || x == y),
{
    if contains_name(s, x) {
        let j = choose|j: int| 0 <= j < s.len() && s[j] == x;
        assert(s.push(y)[j] == x);
    }
    if x == y {
        assert(s.push(y)[s.len() as int] == x);
    }
    if contains_name(s.push(y), x) {
        let j = choose|j: int| 0 <= j < s.push(y).len() && s.push(y)[j] == x;
        if j < s.len() {
            assert(s[j] == x);
        }
    }
}

/// Round trip through a vocabulary: converting a selection of names to a
/// trait set and back yields the same names as a set (order-independent),
/// provided every selected name is one the vocabulary holds.
pub proof fn lemma_names_round_trip(vocab: Vocabulary, names: Seq<Seq<char>>, ts: TraitSet)
    requires
        vocab.wf(),
        ts@ == from_names_set(vocab@, names),
        forall|j: int| 0 <= j < names.len() ==> contains_name(vocab@, #[trigger] names[j]),
    ensures
        forall|x: Seq<char>|
            contains_name(selected_names(vocab@, ts, vocab@.len()), x) == contains_name(names, x),
{
    assert forall|x: Seq<char>|
        contains_name(selected_names(vocab@, ts, vocab@.len()), x) == contains_name(
            names,
            x,
        ) by {
        lemma_selected_names_membership(vocab@, ts, vocab@.len(), x);
        if contains_name(names, x) {
            let j = choose|j: int| 0 <= j < names.len() && names[j] == x;
            let i = choose|i: int| 0 <= i < vocab@.len() && vocab@[i] == names[j];
            assert(ts@.contains(i) && vocab@[i] == x);
        }
    }
}

} // verus!
