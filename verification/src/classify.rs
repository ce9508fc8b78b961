//! The classifier: derives the four awareness quadrants and per-trait
//! corroboration counts from a subject record.
//!
//! Classification is a total, pure function over the data model: a record
//! with no self-assessment yet is treated as having an empty own set, and
//! any number of peer assessments (including none) yields a well-defined
//! result. Within each quadrant, traits come out in vocabulary order.

use vstd::prelude::*;

use crate::store::{PeerAssessment, RecordModel, SubjectRecord};
use crate::traitset::{full_set, TraitSet, WIDTH};
use crate::vocab::{seq_views, Vocabulary};

verus! {

/// The subject's own set, with an absent self-assessment reading as
/// empty.
pub open spec fn own_set(r: RecordModel) -> TraitSet {
    match r.own {
        Some(t) => t,
        None => TraitSet { bits: 0 },
    }
}

/// How many peer assessments contain trait position `i`: the trait's
/// corroboration count.
pub open spec fn peer_count(peers: Seq<PeerAssessment>, i: int) -> nat
    decreases peers.len(),
{
    if peers.len() == 0 {
        0
    } else {
        peer_count(peers.drop_last(), i) + if peers.last().set@.contains(i) {
            1nat
        } else {
            0nat
        }
    }
}

/// Arena: self-known and at least one peer agrees.
pub open spec fn in_arena(r: RecordModel, i: int) -> bool {
    own_set(r)@.contains(i) && peer_count(r.peers, i) >= 1
}

/// Blind: peer-attributed but not self-selected.
pub open spec fn in_blind(r: RecordModel, i: int) -> bool {
    !own_set(r)@.contains(i) && peer_count(r.peers, i) >= 1
}

/// Facade: self-selected, never corroborated by any peer.
pub open spec fn in_facade(r: RecordModel, i: int) -> bool {
    own_set(r)@.contains(i) && peer_count(r.peers, i) == 0
}

/// Unknown: neither self-selected nor ever peer-attributed.
pub open spec fn in_unknown(r: RecordModel, i: int) -> bool {
    !own_set(r)@.contains(i) && peer_count(r.peers, i) == 0
}

/// The quadrant output: annotated trait names, vocabulary-ordered within
/// each list. Arena and blind entries carry the trait's corroboration
/// count; facade and unknown traits have none by definition.
pub struct QuadrantResult {
    pub arena: Vec<(String, u64)>,
    pub blind: Vec<(String, u64)>,
    pub facade: Vec<String>,
    pub unknown: Vec<String>,
}

/// The character sequences and counts of a list of annotated entries.
pub open spec fn entry_views(entries: Seq<(String, u64)>) -> Seq<(Seq<char>, nat)> {
    entries.map_values(|p: (String, u64)| (p.0@, p.1 as nat))
}

/// The arena entries over the first `n` positions, in vocabulary order.
pub open spec fn arena_entries(vocab: Seq<Seq<char>>, r: RecordModel, n: nat) -> Seq<
    (Seq<char>, nat),
>
    decreases n,
{
    if n == 0 {
        Seq::empty()
    } else {
        let p = arena_entries(vocab, r, (n - 1) as nat);
        if in_arena(r, n - 1) {
            p.push((vocab[n - 1], peer_count(r.peers, n - 1)))
        } else {
            p
        }
    }
}

/// The blind entries over the first `n` positions, in vocabulary order.
pub open spec fn blind_entries(vocab: Seq<Seq<char>>, r: RecordModel, n: nat) -> Seq<
    (Seq<char>, nat),
>
    decreases n,
{
    if n == 0 {
        Seq::empty()
    } else {
        let p = blind_entries(vocab, r, (n - 1) as nat);
        if in_blind(r, n - 1) {
            p.push((vocab[n - 1], peer_count(r.peers, n - 1)))
        } else {
            p
        }
    }
}

/// The facade names over the first `n` positions, in vocabulary order.
pub open spec fn facade_names(vocab: Seq<Seq<char>>, r: RecordModel, n: nat) -> Seq<Seq<char>>
    decreases n,
{
    if n == 0 {
        Seq::empty()
    } else {
        let p = facade_names(vocab, r, (n - 1) as nat);
        if in_facade(r, n - 1) {
            p.push(vocab[n - 1])
        } else {
            p
        }
    }
}

/// The unknown names over the first `n` positions, in vocabulary order.
pub open spec fn unknown_names(vocab: Seq<Seq<char>>, r: RecordModel, n: nat) -> Seq<Seq<char>>
    decreases n,
{
    if n == 0 {
        Seq::empty()
    } else {
        let p = unknown_names(vocab, r, (n - 1) as nat);
        if in_unknown(r, n - 1) {
            p.push(vocab[n - 1])
        } else {
            p
        }
    }
}

/// Counts the peer assessments whose set contains position `i`.
pub fn count_peers_with(peers: &Vec<PeerAssessment>, i: usize) -> (r: u64)
    requires
        i < WIDTH,
    ensures
        r == peer_count(peers@, i as int),
{
    let mut c: u64 = 0;
    let mut j: usize = 0;
    while j < peers.len()
        invariant
            j <= peers@.len(),
            i < WIDTH,
            c == peer_count(peers@.take(j as int), i as int),
            c <= j,
        decreases peers@.len() - j,
    {
        if peers[j].set.contains(i) {
            c = c + 1;
        }
        proof {
            assert(peers@.take(j + 1).drop_last() =~= peers@.take(j as int));
            assert(peers@.take(j + 1).last() == peers@[j as int]);
        }
        j = j + 1;
    }
    proof {
        assert(peers@.take(peers@.len() as int) =~= peers@);
    }
    c
}

/// Computes the four quadrants and per-trait corroboration counts for a
/// record. Total: never fails for any record and any number of peers.
pub fn classify(vocab: &Vocabulary, record: &SubjectRecord) -> (r: QuadrantResult)
    requires
        vocab.wf(),
    ensures
        entry_views(r.arena@) == arena_entries(vocab@, record@, vocab@.len()),
        entry_views(r.blind@) == blind_entries(vocab@, record@, vocab@.len()),
        seq_views(r.facade@) == facade_names(vocab@, record@, vocab@.len()),
        seq_views(r.unknown@) == unknown_names(vocab@, record@, vocab@.len()),
{
    let own = match record.own {
        Some(t) => t,
        None => TraitSet::empty(),
    };
    let mut arena: Vec<(String, u64)> = Vec::new();
    let mut blind: Vec<(String, u64)> = Vec::new();
    let mut facade: Vec<String> = Vec::new();
    let mut unknown: Vec<String> = Vec::new();
    let n = vocab.len();
    let mut i: usize = 0;
    while i < n
        invariant
            vocab.wf(),
            n == vocab@.len(),
            i <= n,
            own == own_set(record@),
            entry_views(arena@) =~= arena_entries(vocab@, record@, i as nat),
            entry_views(blind@) =~= blind_entries(vocab@, record@, i as nat),
            seq_views(facade@) =~= facade_names(vocab@, record@, i as nat),
            seq_views(unknown@) =~= unknown_names(vocab@, record@, i as nat),
        decreases n - i,
    {
        let cnt = count_peers_with(&record.peers, i);
        let name = vocab.name_at(i).clone();
        if own.contains(i) {
            if cnt >= 1 {
                arena.push((name, cnt));
            } else {
                facade.push(name);
            }
        } else {
            if cnt >= 1 {
                blind.push((name, cnt));
            } else {
                unknown.push(name);
            }
        }
        proof {
            assert(entry_views(arena@) =~= arena_entries(vocab@, record@, (i + 1) as nat));
            assert(entry_views(blind@) =~= blind_entries(vocab@, record@, (i + 1) as nat));
            assert(seq_views(facade@) =~= facade_names(vocab@, record@, (i + 1) as nat));
            assert(seq_views(unknown@) =~= unknown_names(vocab@, record@, (i + 1) as nat));
        }
        i = i + 1;
    }
    QuadrantResult { arena, blind, facade, unknown }
}

/// A trait's corroboration count is zero exactly when no peer assessment
/// contains it; so the facade quadrant is the own set minus the union of
/// all peer sets, and the unknown quadrant is the complement of own
/// intersected with the complement of that union.
pub proof fn lemma_count_zero_iff_no_peer(peers: Seq<PeerAssessment>, i: int)
    ensures
        (peer_count(peers, i) == 0) == (forall|j: int|
            0 <= j < peers.len() ==> !(#[trigger] peers[j]).set@.contains(i)),
    decreases peers.len(),
{
    if peers.len() > 0 {
        let p = peers.drop_last();
        lemma_count_zero_iff_no_peer(p, i);
        assert(forall|j: int| 0 <= j < p.len() ==> #[trigger] p[j] == peers[j]);
        if peer_count(peers, i) == 0 {
            assert forall|j: int| 0 <= j < peers.len() implies !(#[trigger] peers[j]).set@.contains(
                i,
            ) by {
                if j < peers.len() - 1 {
                    assert(p[j] == peers[j]);
                } else {
                    assert(peers[j] == peers.last());
                }
            }
        } else {
            if peer_count(p, i) > 0 {
                let j = choose|j: int| 0 <= j < p.len() && (#[trigger] p[j]).set@.contains(i);
                assert(peers[j].set@.contains(i));
            } else {
                assert(peers.last().set@.contains(i));
                assert(peers[peers.len() - 1].set@.contains(i));
            }
        }
    }
}

/// The arena positions among the first `n`.
pub open spec fn arena_set(r: RecordModel, n: nat) -> Set<int> {
    Set::new(|i: int| 0 <= i < n && in_arena(r, i))
}

/// The blind positions among the first `n`.
pub open spec fn blind_set(r: RecordModel, n: nat) -> Set<int> {
    Set::new(|i: int| 0 <= i < n && in_blind(r, i))
}

/// The facade positions among the first `n`.
pub open spec fn facade_set(r: RecordModel, n: nat) -> Set<int> {
    Set::new(|i: int| 0 <= i < n && in_facade(r, i))
}

/// The unknown positions among the first `n`.
pub open spec fn unknown_set(r: RecordModel, n: nat) -> Set<int> {
    Set::new(|i: int| 0 <= i < n && in_unknown(r, i))
}

/// The four quadrants partition the vocabulary: their union is the full
/// set of positions and they are pairwise disjoint, for any record and
/// any number of peer assessments, including none.
pub proof fn lemma_quadrants_partition(r: RecordModel, n: nat)
    ensures
        arena_set(r, n).union(blind_set(r, n)).union(facade_set(r, n)).union(unknown_set(r, n))
            =~= full_set(n),
        arena_set(r, n).intersect(blind_set(r, n)) =~= Set::<int>::empty(),
        arena_set(r, n).intersect(facade_set(r, n)) =~= Set::<int>::empty(),
        arena_set(r, n).intersect(unknown_set(r, n)) =~= Set::<int>::empty(),
        blind_set(r, n).intersect(facade_set(r, n)) =~= Set::<int>::empty(),
        blind_set(r, n).intersect(unknown_set(r, n)) =~= Set::<int>::empty(),
        facade_set(r, n).intersect(unknown_set(r, n)) =~= Set::<int>::empty(),
{
}

/// No deduplication on the peer path: submitting the same assessment
/// twice contributes twice, so repeated peer input doubles that entry's
/// contribution to every corroboration count it touches.
pub proof fn lemma_repeated_assessment_doubles(peers: Seq<PeerAssessment>, pa: PeerAssessment, i: int)
    ensures
        peer_count(peers.push(pa).push(pa), i) == peer_count(peers, i) + (
        if pa.set@.contains(i) {
            2int
        } else {
            0int
        }),
{
    let s1 = peers.push(pa);
    let s2 = s1.push(pa);
    let extra: int = if pa.set@.contains(i) {
        1int
    } else {
        0int
    };
    assert(s2.drop_last() =~= s1);
    assert(s1.drop_last() =~= peers);
    assert(s2.last() == pa);
    assert(s1.last() == pa);
    assert(peer_count(s2, i) == peer_count(s1, i) + extra);
    assert(peer_count(s1, i) == peer_count(peers, i) + extra);
}

} // verus!
