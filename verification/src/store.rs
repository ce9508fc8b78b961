//! The subject store: one record per subject, keyed by an opaque id.
//!
//! A record holds the subject's own self-assessment (replaced wholesale on
//! every new submission) and the accumulated list of peer assessments
//! (append-only, duplicates deliberately retained so that repeated peer
//! input strengthens corroboration counts). Keys are unique; the store
//! offers no deletion.

use vstd::prelude::*;

use crate::traitset::TraitSet;

verus! {

/// One peer submission about a subject: who assessed, and what they
/// selected.
#[derive(Clone, Copy, PartialEq, Eq, Structural, Debug)]
pub struct PeerAssessment {
    pub assessor: u64,
    pub set: TraitSet,
}

/// A subject's record: identity, own self-assessment (absent until the
/// subject first completes the flow), and every peer submission about
/// them, in submission order.
pub struct SubjectRecord {
    pub id: u64,
    pub own: Option<TraitSet>,
    pub peers: Vec<PeerAssessment>,
}

/// The abstract contents of a subject record.
pub ghost struct RecordModel {
    pub id: u64,
    pub own: Option<TraitSet>,
    pub peers: Seq<PeerAssessment>,
}

impl SubjectRecord {
    /// The abstract contents: same fields, with the peer list as a
    /// sequence.
    pub open spec fn view(&self) -> RecordModel {
        RecordModel { id: self.id, own: self.own, peers: self.peers@ }
    }
}

/// Why a peer assessment was rejected.
#[derive(Clone, Copy, PartialEq, Eq, Structural, Debug)]
pub enum PeerAssessmentError {
    /// No record exists for the target: a peer cannot assess an
    /// unregistered subject.
    TargetNotFound,
    /// Assessor and target are the same subject: self-assessment must go
    /// through `upsert_own`, never through the peer path.
    SelfAssessmentRejected,
}

/// Whether some record of `s` carries `id`.
pub open spec fn has_id(s: Seq<RecordModel>, id: u64) -> bool {
    exists|k: int| 0 <= k < s.len() && s[k].id == id
}

/// The position of the record carrying `id` (meaningful under
/// [`store_wf`], where it is unique).
pub open spec fn id_index(s: Seq<RecordModel>, id: u64) -> int {
    choose|k: int| 0 <= k < s.len() && s[k].id == id
}

/// Well-formedness of store contents: ids are unique.
pub open spec fn store_wf(s: Seq<RecordModel>) -> bool {
    forall|i: int, j: int| 0 <= i < j < s.len() ==> s[i].id != s[j].id
}

/// Under unique ids, any position carrying `id` is the position
/// [`id_index`] names.
pub proof fn lemma_id_index_unique(s: Seq<RecordModel>, id: u64, k: int)
    requires
        store_wf(s),
        0 <= k < s.len(),
        s[k].id == id,
    ensures
        has_id(s, id),
        id_index(s, id) == k,
{
    assert(has_id(s, id));
    let j = id_index(s, id);
    assert(0 <= j < s.len() && s[j].id == id);
    if j < k {
        assert(s[j].id != s[k].id);
    } else if k < j {
        assert(s[k].id != s[j].id);
    }
}

/// The store contents after a self-assessment for `id`: the existing
/// record's own set is replaced wholesale, or a fresh record with an
/// empty peer list is appended.
pub open spec fn upsert_own_spec(s: Seq<RecordModel>, id: u64, ts: TraitSet) -> Seq<RecordModel> {
    if has_id(s, id) {
        let k = id_index(s, id);
        s.update(k, RecordModel { id: s[k].id, own: Some(ts), peers: s[k].peers })
    } else {
        s.push(RecordModel { id, own: Some(ts), peers: Seq::empty() })
    }
}

/// The store contents after a peer assessment lands on the record
/// carrying `target` (which must exist): that record's peer list grows by
/// one entry, nothing else changes.
pub open spec fn append_peer_spec(s: Seq<RecordModel>, target: u64, pa: PeerAssessment) -> Seq<
    RecordModel,
> {
    let k = id_index(s, target);
    s.update(k, RecordModel { id: s[k].id, own: s[k].own, peers: s[k].peers.push(pa) })
}

/// A keyed collection of subject records, keys unique.
pub struct Store {
    pub(crate) records: Vec<SubjectRecord>,
}

impl Store {
    /// The abstract contents: the records, in storage order.
    pub closed spec fn view(&self) -> Seq<RecordModel> {
        self.records@.map_values(|r: SubjectRecord| r@)
    }

    /// Well-formedness: ids are unique. Constructors establish this and
    /// every operation preserves it.
    pub open spec fn wf(&self) -> bool {
        store_wf(self@)
    }

    /// How the abstract contents relate to the record vector.
    pub(crate) proof fn lemma_view(&self)
        ensures
            self@.len() == self.records@.len(),
            forall|i: int|
                0 <= i < self@.len() ==> self@[i] == (#[trigger] self.records@[i])@,
    {
    }

    /// The empty store.
    pub fn new() -> (r: Store)
        ensures
            r@ =~= Seq::<RecordModel>::empty(),
            r.wf(),
    {
        Store { records: Vec::new() }
    }

    /// Number of records.
    pub fn len(&self) -> (r: usize)
        ensures
            r == self@.len(),
    {
        self.records.len()
    }

    /// The record at storage position `k`.
    pub fn record_at(&self, k: usize) -> (r: &SubjectRecord)
        requires
            k < self@.len(),
        ensures
            r@ == self@[k as int],
    {
        &self.records[k]
    }

    /// The storage position of the record carrying `id`, if any.
    pub fn find_index(&self, id: u64) -> (r: Option<usize>)
        ensures
            match r {
                Some(k) => k < self@.len() && self@[k as int].id == id,
                None => !has_id(self@, id),
            },
    {
        let mut i: usize = 0;
        while i < self.records.len()
            invariant
                i <= self@.len(),
                forall|k: int| 0 <= k < i ==> self@[k].id != id,
            decreases self@.len() - i,
        {
            if self.records[i].id == id {
                return Some(i);
            }
            i = i + 1;
        }
        None
    }

    /// Looks a record up by id.
    pub fn get(&self, id: u64) -> (r: Option<&SubjectRecord>)
        requires
            self.wf(),
        ensures
            match r {
                Some(rec) => has_id(self@, id) && rec@ == self@[id_index(self@, id)],
                None => !has_id(self@, id),
            },
    {
        match self.find_index(id) {
            Some(k) => {
                proof {
                    lemma_id_index_unique(self@, id, k as int);
                }
                Some(&self.records[k])
            },
            None => None,
        }
    }

    /// Records or replaces the subject's own self-assessment.
    ///
    /// If a record for `id` exists its own set is replaced wholesale
    /// (last write wins); otherwise a fresh record with an empty peer
    /// list is created. Peer lists are never touched.
    pub fn upsert_own(&mut self, id: u64, ts: TraitSet)
        requires
            old(self).wf(),
        ensures
            final(self).wf(),
            final(self)@ == upsert_own_spec(old(self)@, id, ts),
    {
        match self.find_index(id) {
            Some(k) => {
                proof {
                    lemma_id_index_unique(self@, id, k as int);
                }
                self.records[k].own = Some(ts);
                proof {
                    assert(self@ =~~= upsert_own_spec(old(self)@, id, ts));
                    assert(forall|j: int|
                        0 <= j < self@.len() ==> self@[j].id == #[trigger] old(self)@[j].id);
                }
            },
            None => {
                self.records.push(SubjectRecord { id, own: Some(ts), peers: Vec::new() });
                proof {
                    assert(self@ =~~= upsert_own_spec(old(self)@, id, ts));
                    assert forall|i: int, j: int| 0 <= i < j < self@.len() implies self@[i].id
                        != self@[j].id by {
                        if j == self@.len() - 1 {
                            assert(!has_id(old(self)@, id));
                        }
                    }
                }
            },
        }
    }

    /// Appends a peer assessment to the target's record.
    ///
    /// Fails with `SelfAssessmentRejected` when assessor and target are
    /// the same subject, and with `TargetNotFound` when no record carries
    /// `target`; on failure the store is unchanged. On success the entry
    /// is appended unconditionally — no deduplication, by design.
    pub fn append_peer_assessment(&mut self, target: u64, assessor: u64, ts: TraitSet) -> (r:
        Result<(), PeerAssessmentError>)
        requires
            old(self).wf(),
        ensures
            final(self).wf(),
            assessor == target ==> r == Err::<(), PeerAssessmentError>(
                PeerAssessmentError::SelfAssessmentRejected,
            ) && final(self)@ == old(self)@,
            assessor != target && !has_id(old(self)@, target) ==> r == Err::<(
            ), PeerAssessmentError>(PeerAssessmentError::TargetNotFound) && final(self)@ == old(
                self,
            )@,
            assessor != target && has_id(old(self)@, target) ==> r == Ok::<(), PeerAssessmentError>(
                (),
            ) && final(self)@ == append_peer_spec(
                old(self)@,
                target,
                PeerAssessment { assessor, set: ts },
            ),
    {
        if assessor == target {
            return Err(PeerAssessmentError::SelfAssessmentRejected);
        }
        match self.find_index(target) {
            Some(k) => {
                proof {
                    lemma_id_index_unique(self@, target, k as int);
                }
                self.records[k].peers.push(PeerAssessment { assessor, set: ts });
                proof {
                    assert(self@ =~~= append_peer_spec(
                        old(self)@,
                        target,
                        PeerAssessment { assessor, set: ts },
                    ));
                    assert(forall|j: int|
                        0 <= j < self@.len() ==> self@[j].id == #[trigger] old(self)@[j].id);
                }
                Ok(())
            },
            None => Err(PeerAssessmentError::TargetNotFound),
        }
    }
}

/// Replace, not merge: two self-assessment submissions for the same id in
/// a row leave exactly the state the second alone would have left, so the
/// second submission's set fully determines the record's own set.
pub proof fn lemma_upsert_replaces(s: Seq<RecordModel>, id: u64, a: TraitSet, b: TraitSet)
    requires
        store_wf(s),
    ensures
        upsert_own_spec(upsert_own_spec(s, id, a), id, b) == upsert_own_spec(s, id, b),
{
    let s1 = upsert_own_spec(s, id, a);
    if has_id(s, id) {
        let k = id_index(s, id);
        assert(0 <= k < s.len() && s[k].id == id);
        assert(forall|j: int| 0 <= j < s1.len() ==> s1[j].id == #[trigger] s[j].id);
        assert(store_wf(s1));
        lemma_id_index_unique(s1, id, k);
        assert(upsert_own_spec(s1, id, b) =~~= upsert_own_spec(s, id, b));
    } else {
        let k = s.len() as int;
        assert(s1 =~~= s.push(RecordModel { id, own: Some(a), peers: Seq::empty() }));
        assert forall|i: int, j: int| 0 <= i < j < s1.len() implies s1[i].id != s1[j].id by {
            if j == s1.len() - 1 {
                assert(!has_id(s, id));
            }
        }
        lemma_id_index_unique(s1, id, k);
        assert(upsert_own_spec(s1, id, b) =~~= upsert_own_spec(s, id, b));
    }
}

} // verus!
