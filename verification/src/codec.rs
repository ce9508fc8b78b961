//! The durable byte representation of a subject store.
//!
//! The store is serialized wholesale as a flat sequence of
//! little-endian 64-bit words: the record count, then per record the id,
//! a presence flag and the bits of the own set, the peer count, and per
//! peer the assessor id and its bits. Decoding is total: any byte string
//! either parses to exactly one well-formed store or is rejected, and
//! encoding then decoding loses nothing — id, own set, and the full
//! ordered peer list including duplicate assessor entries all round-trip.

use vstd::prelude::*;

use crate::store::{store_wf, PeerAssessment, RecordModel, Store, SubjectRecord};
use crate::traitset::TraitSet;

verus! {

/// The eight little-endian bytes of a 64-bit word.
pub open spec fn u64_le(x: u64) -> Seq<u8> {
    seq![
        (x & 0xff) as u8,
        ((x >> 8) & 0xff) as u8,
        ((x >> 16) & 0xff) as u8,
        ((x >> 24) & 0xff) as u8,
        ((x >> 32) & 0xff) as u8,
        ((x >> 40) & 0xff) as u8,
        ((x >> 48) & 0xff) as u8,
        ((x >> 56) & 0xff) as u8,
    ]
}

/// The 64-bit word read from eight little-endian bytes.
pub open spec fn u64_of_le(b: Seq<u8>) -> u64
    recommends
        b.len() == 8,
{
    (b[0] as u64) | ((b[1] as u64) << 8) | ((b[2] as u64) << 16) | ((b[3] as u64) << 24) | (
    (b[4] as u64) << 32) | ((b[5] as u64) << 40) | ((b[6] as u64) << 48) | ((b[7] as u64) << 56)
}

/// Reading back the eight bytes of a word yields the word.
pub proof fn lemma_u64_le_round_trip(x: u64)
    ensures
        u64_of_le(u64_le(x)) == x,
{
    assert((((x & 0xff) as u8) as u64) | ((((x >> 8) & 0xff) as u8 as u64) << 8) | ((((x >> 16)
        & 0xff) as u8 as u64) << 16) | ((((x >> 24) & 0xff) as u8 as u64) << 24) | ((((x >> 32)
        & 0xff) as u8 as u64) << 32) | ((((x >> 40) & 0xff) as u8 as u64) << 40) | ((((x >> 48)
        & 0xff) as u8 as u64) << 48) | ((((x >> 56) & 0xff) as u8 as u64) << 56) == x)
        by (bit_vector);
}

/// Appends the eight little-endian bytes of `x`.
fn write_u64(out: &mut Vec<u8>, x: u64)
    ensures
        final(out)@ == old(out)@ + u64_le(x),
{
    out.push((x & 0xff) as u8);
    out.push(((x >> 8) & 0xff) as u8);
    out.push(((x >> 16) & 0xff) as u8);
    out.push(((x >> 24) & 0xff) as u8);
    out.push(((x >> 32) & 0xff) as u8);
    out.push(((x >> 40) & 0xff) as u8);
    out.push(((x >> 48) & 0xff) as u8);
    out.push(((x >> 56) & 0xff) as u8);
    proof {
        assert(out@ =~= old(out)@ + u64_le(x));
    }
}

/// The presence flag written for a record's own set.
pub open spec fn own_flag(r: RecordModel) -> u64 {
    if r.own is Some {
        1
    } else {
        0
    }
}

/// The bits written for a record's own set (zero when absent).
pub open spec fn own_bits(r: RecordModel) -> u64 {
    match r.own {
        Some(t) => t.bits,
        None => 0,
    }
}

/// The bytes of one peer assessment: assessor id, then set bits.
pub open spec fn peer_bytes(p: PeerAssessment) -> Seq<u8> {
    u64_le(p.assessor) + u64_le(p.set.bits)
}

/// The bytes of a peer list, in submission order.
pub open spec fn peers_bytes(ps: Seq<PeerAssessment>) -> Seq<u8>
    decreases ps.len(),
{
    if ps.len() == 0 {
        Seq::empty()
    } else {
        peer_bytes(ps[0]) + peers_bytes(ps.drop_first())
    }
}

/// The bytes of one record: id, own-set flag and bits, peer count, then
/// the peer list.
pub open spec fn record_bytes(r: RecordModel) -> Seq<u8> {
    u64_le(r.id) + u64_le(own_flag(r)) + u64_le(own_bits(r)) + u64_le(r.peers.len() as u64)
        + peers_bytes(r.peers)
}

/// The bytes of a record list, in storage order.
pub open spec fn records_bytes(rs: Seq<RecordModel>) -> Seq<u8>
    decreases rs.len(),
{
    if rs.len() == 0 {
        Seq::empty()
    } else {
        record_bytes(rs[0]) + records_bytes(rs.drop_first())
    }
}

/// The bytes of a whole store: record count, then the records.
pub open spec fn store_bytes(m: Seq<RecordModel>) -> Seq<u8> {
    u64_le(m.len() as u64) + records_bytes(m)
}

/// A peer list's bytes grow one fixed-size entry at a time.
proof fn lemma_peers_bytes_snoc(ps: Seq<PeerAssessment>)
    requires
        ps.len() > 0,
    ensures
        peers_bytes(ps) == peers_bytes(ps.drop_last()) + peer_bytes(ps.last()),
    decreases ps.len(),
{
    if ps.len() == 1 {
        assert(ps.drop_last() =~= Seq::<PeerAssessment>::empty());
        assert(ps.drop_first() =~= Seq::<PeerAssessment>::empty());
        assert(peers_bytes(ps) =~= peers_bytes(ps.drop_last()) + peer_bytes(ps.last()));
    } else {
        let t = ps.drop_first();
        lemma_peers_bytes_snoc(t);
        assert(t.drop_last() =~= ps.drop_last().drop_first());
        assert(t.last() == ps.last());
        assert(ps.drop_last()[0] == ps[0]);
        assert(peers_bytes(ps.drop_last()) == peer_bytes(ps[0]) + peers_bytes(
            ps.drop_last().drop_first(),
        ));
        assert(peers_bytes(ps) =~= peers_bytes(ps.drop_last()) + peer_bytes(ps.last()));
    }
}

/// A record list's bytes grow one record at a time.
proof fn lemma_records_bytes_snoc(rs: Seq<RecordModel>)
    requires
        rs.len() > 0,
    ensures
        records_bytes(rs) == records_bytes(rs.drop_last()) + record_bytes(rs.last()),
    decreases rs.len(),
{
    if rs.len() == 1 {
        assert(rs.drop_last() =~= Seq::<RecordModel>::empty());
        assert(rs.drop_first() =~= Seq::<RecordModel>::empty());
        assert(records_bytes(rs) =~= records_bytes(rs.drop_last()) + record_bytes(rs.last()));
    } else {
        let t = rs.drop_first();
        lemma_records_bytes_snoc(t);
        assert(t.drop_last() =~= rs.drop_last().drop_first());
        assert(t.last() == rs.last());
        assert(rs.drop_last()[0] == rs[0]);
        assert(records_bytes(rs.drop_last()) == record_bytes(rs[0]) + records_bytes(
            rs.drop_last().drop_first(),
        ));
        assert(records_bytes(rs) =~= records_bytes(rs.drop_last()) + record_bytes(rs.last()));
    }
}

/// Appends the bytes of one record.
fn write_record(out: &mut Vec<u8>, rec: &SubjectRecord)
    ensures
        final(out)@ == old(out)@ + record_bytes(rec@),
{
    write_u64(out, rec.id);
    match rec.own {
        Some(t) => {
            write_u64(out, 1);
            write_u64(out, t.bits);
        },
        None => {
            write_u64(out, 0);
            write_u64(out, 0);
        },
    }
    write_u64(out, rec.peers.len() as u64);
    let ghost head = old(out)@ + u64_le(rec.id) + u64_le(own_flag(rec@)) + u64_le(own_bits(rec@))
        + u64_le(rec.peers.len() as u64);
    let mut j: usize = 0;
    while j < rec.peers.len()
        invariant
            j <= rec.peers@.len(),
            out@ =~= head + peers_bytes(rec.peers@.take(j as int)),
        decreases rec.peers@.len() - j,
    {
        let pa = rec.peers[j];
        write_u64(out, pa.assessor);
        write_u64(out, pa.set.bits);
        proof {
            let taken = rec.peers@.take(j + 1);
            assert(taken.drop_last() =~= rec.peers@.take(j as int));
            assert(taken.last() == rec.peers@[j as int]);
            lemma_peers_bytes_snoc(taken);
            assert(out@ =~= head + peers_bytes(taken));
        }
        j = j + 1;
    }
    proof {
        assert(rec.peers@.take(rec.peers@.len() as int) =~= rec.peers@);
        assert(out@ =~= old(out)@ + record_bytes(rec@));
    }
}

/// Serializes the entire store. For a well-formed store the result is
/// exactly what [`decode_spec`] reads back as the same contents: the
/// durable representation is lossless.
pub fn encode_store(store: &Store) -> (r: Vec<u8>)
    ensures
        r@ == store_bytes(store@),
        store.wf() ==> decode_spec(r@) == Some(store@),
{
    proof {
        store.lemma_view();
    }
    let mut out: Vec<u8> = Vec::new();
    write_u64(&mut out, store.records.len() as u64);
    let ghost head = u64_le(store.records@.len() as u64);
    let mut k: usize = 0;
    while k < store.records.len()
        invariant
            k <= store@.len(),
            store@.len() == store.records@.len(),
            forall|i: int| 0 <= i < store@.len() ==> store@[i] == (#[trigger] store.records@[i])@,
            out@ =~= head + records_bytes(store@.take(k as int)),
        decreases store@.len() - k,
    {
        write_record(&mut out, &store.records[k]);
        proof {
            let taken = store@.take(k + 1);
            assert(taken.drop_last() =~= store@.take(k as int));
            assert(taken.last() == store@[k as int]);
            lemma_records_bytes_snoc(taken);
            assert(out@ =~= head + records_bytes(taken));
        }
        k = k + 1;
    }
    proof {
        assert(store@.take(store@.len() as int) =~= store@);
        assert(out@ =~= store_bytes(store@));
        assert forall|i: int| 0 <= i < store@.len() implies (#[trigger] store@[i]).peers.len()
            <= u64::MAX by {
            assert(store@[i].peers == store.records@[i].peers@);
            vstd::std_specs::vec::axiom_spec_len(&store.records@[i].peers);
        }
        if store.wf() {
            lemma_store_round_trip(store@);
        }
    }
    out
}

/// The word at `pos` and the position after it, or nothing where fewer
/// than eight bytes remain.
pub open spec fn parse_u64(b: Seq<u8>, pos: int) -> Option<(u64, int)> {
    if 0 <= pos && pos + 8 <= b.len() {
        Some((u64_of_le(b.subrange(pos, pos + 8)), pos + 8))
    } else {
        None
    }
}

/// Reads the word at `pos`, if eight bytes remain.
fn try_read_u64(b: &Vec<u8>, pos: usize) -> (r: Option<(u64, usize)>)
    ensures
        match r {
            Some((x, p)) => parse_u64(b@, pos as int) == Some((x, p as int)),
            None => parse_u64(b@, pos as int) is None,
        },
{
    if pos <= b.len() && b.len() - pos >= 8 {
        let x = (b[pos] as u64) | ((b[pos + 1] as u64) << 8) | ((b[pos + 2] as u64) << 16) | ((b[pos
            + 3] as u64) << 24) | ((b[pos + 4] as u64) << 32) | ((b[pos + 5] as u64) << 40) | ((
        b[pos + 6] as u64) << 48) | ((b[pos + 7] as u64) << 56);
        proof {
            let s = b@.subrange(pos as int, pos as int + 8);
            assert(s[0] == b@[pos as int]);
            assert(s[1] == b@[pos as int + 1]);
            assert(s[2] == b@[pos as int + 2]);
            assert(s[3] == b@[pos as int + 3]);
            assert(s[4] == b@[pos as int + 4]);
            assert(s[5] == b@[pos as int + 5]);
            assert(s[6] == b@[pos as int + 6]);
            assert(s[7] == b@[pos as int + 7]);
        }
        Some((x, pos + 8))
    } else {
        None
    }
}

/// Parses `remaining` peer entries starting at `pos`, extending `acc`.
pub open spec fn parse_peers(b: Seq<u8>, pos: int, remaining: nat, acc: Seq<PeerAssessment>) -> Option<
    (Seq<PeerAssessment>, int),
>
    decreases remaining,
{
    if remaining == 0 {
        Some((acc, pos))
    } else {
        match parse_u64(b, pos) {
            None => None,
            Some((a, p1)) => match parse_u64(b, p1) {
                None => None,
                Some((bits, p2)) => parse_peers(
                    b,
                    p2,
                    (remaining - 1) as nat,
                    acc.push(PeerAssessment { assessor: a, set: TraitSet { bits } }),
                ),
            },
        }
    }
}

/// Parses one record starting at `pos`: id, own-set flag (0 or 1) and
/// bits, peer count, then that many peer entries.
pub open spec fn parse_record(b: Seq<u8>, pos: int) -> Option<(RecordModel, int)> {
    match parse_u64(b, pos) {
        None => None,
        Some((id, p1)) => match parse_u64(b, p1) {
            None => None,
            Some((flag, p2)) => if flag > 1 {
                None
            } else {
                match parse_u64(b, p2) {
                    None => None,
                    Some((bits, p3)) => match parse_u64(b, p3) {
                        None => None,
                        Some((npeers, p4)) => match parse_peers(b, p4, npeers as nat, Seq::empty()) {
                            None => None,
                            Some((peers, p5)) => Some(
                                (
                                    RecordModel {
                                        id,
                                        own: if flag == 1 {
                                            Some(TraitSet { bits })
                                        } else {
                                            None
                                        },
                                        peers,
                                    },
                                    p5,
                                ),
                            ),
                        },
                    },
                }
            },
        },
    }
}

/// Parses `remaining` records starting at `pos`, extending `acc`.
pub open spec fn parse_records(b: Seq<u8>, pos: int, remaining: nat, acc: Seq<RecordModel>) -> Option<
    (Seq<RecordModel>, int),
>
    decreases remaining,
{
    if remaining == 0 {
        Some((acc, pos))
    } else {
        match parse_record(b, pos) {
            None => None,
            Some((r, p1)) => parse_records(b, p1, (remaining - 1) as nat, acc.push(r)),
        }
    }
}

/// What a byte string means as a store: the record count, then exactly
/// that many records, consuming every byte, with unique ids — or
/// nothing.
pub open spec fn decode_spec(b: Seq<u8>) -> Option<Seq<RecordModel>> {
    match parse_u64(b, 0) {
        None => None,
        Some((n, p1)) => match parse_records(b, p1, n as nat, Seq::empty()) {
            None => None,
            Some((rs, p2)) => if p2 == b.len() && store_wf(rs) {
                Some(rs)
            } else {
                None
            },
        },
    }
}

/// Whether the ids of the records are unique.
fn ids_unique(records: &Vec<SubjectRecord>) -> (r: bool)
    ensures
        r == store_wf(records@.map_values(|x: SubjectRecord| x@)),
{
    let ghost m = records@.map_values(|x: SubjectRecord| x@);
    let mut i: usize = 0;
    while i < records.len()
        invariant
            i <= m.len(),
            m == records@.map_values(|x: SubjectRecord| x@),
            forall|a: int, b: int| 0 <= a < b < i ==> m[a].id != m[b].id,
        decreases m.len() - i,
    {
        let mut j: usize = 0;
        while j < i
            invariant
                j <= i < m.len(),
                m == records@.map_values(|x: SubjectRecord| x@),
                forall|a: int, b: int| 0 <= a < b < i ==> m[a].id != m[b].id,
                forall|b: int| 0 <= b < j ==> m[b].id != m[i as int].id,
            decreases i - j,
        {
            if records[j].id == records[i].id {
                proof {
                    assert(m[j as int].id == m[i as int].id);
                }
                return false;
            }
            j = j + 1;
        }
        i = i + 1;
    }
    true
}

/// Reads one record at `pos`, if the bytes there form one.
fn try_read_record(b: &Vec<u8>, pos: usize) -> (r: Option<(SubjectRecord, usize)>)
    ensures
        match r {
            Some((rec, p)) => parse_record(b@, pos as int) == Some((rec@, p as int)) && p
                <= b@.len(),
            None => parse_record(b@, pos as int) is None,
        },
{
    let (id, p1) = match try_read_u64(b, pos) {
        Some(v) => v,
        None => {
            return None;
        },
    };
    let (flag, p2) = match try_read_u64(b, p1) {
        Some(v) => v,
        None => {
            return None;
        },
    };
    if flag > 1 {
        return None;
    }
    let (bits, p3) = match try_read_u64(b, p2) {
        Some(v) => v,
        None => {
            return None;
        },
    };
    let (npeers, p4) = match try_read_u64(b, p3) {
        Some(v) => v,
        None => {
            return None;
        },
    };
    let mut peers: Vec<PeerAssessment> = Vec::new();
    let mut pos2: usize = p4;
    let mut j: u64 = 0;
    while j < npeers
        invariant
            j <= npeers,
            pos2 <= b@.len(),
            parse_u64(b@, pos as int) == Some((id, p1 as int)),
            parse_u64(b@, p1 as int) == Some((flag, p2 as int)),
            flag <= 1,
            parse_u64(b@, p2 as int) == Some((bits, p3 as int)),
            parse_u64(b@, p3 as int) == Some((npeers, p4 as int)),
            parse_peers(b@, p4 as int, npeers as nat, Seq::empty()) == parse_peers(
                b@,
                pos2 as int,
                (npeers - j) as nat,
                peers@,
            ),
        decreases npeers - j,
    {
        let ghost old_pos2 = pos2 as int;
        let ghost old_acc = peers@;
        let (a, q1) = match try_read_u64(b, pos2) {
            Some(v) => v,
            None => {
                proof {
                    assert(parse_peers(b@, old_pos2, (npeers - j) as nat, old_acc) is None);
                }
                return None;
            },
        };
        let (pbits, q2) = match try_read_u64(b, q1) {
            Some(v) => v,
            None => {
                proof {
                    assert(parse_peers(b@, old_pos2, (npeers - j) as nat, old_acc) is None);
                }
                return None;
            },
        };
        peers.push(PeerAssessment { assessor: a, set: TraitSet { bits: pbits } });
        pos2 = q2;
        proof {
            assert(parse_peers(b@, old_pos2, (npeers - j) as nat, old_acc) == parse_peers(
                b@,
                pos2 as int,
                (npeers - (j + 1)) as nat,
                old_acc.push(PeerAssessment { assessor: a, set: TraitSet { bits: pbits } }),
            ));
        }
        j = j + 1;
    }
    proof {
        assert(parse_peers(b@, pos2 as int, 0, peers@) == Some((peers@, pos2 as int)));
    }
    let own = if flag == 1 {
        Some(TraitSet { bits })
    } else {
        None
    };
    let rec = SubjectRecord { id, own, peers };
    Some((rec, pos2))
}

/// Deserializes a store from bytes. Exactly the byte strings
/// [`decode_spec`] accepts yield a store, and that store is well-formed.
pub fn decode_store(bytes: &Vec<u8>) -> (r: Option<Store>)
    ensures
        match r {
            Some(s) => decode_spec(bytes@) == Some(s@) && s.wf(),
            None => decode_spec(bytes@) is None,
        },
{
    let (n, p1) = match try_read_u64(bytes, 0) {
        Some(v) => v,
        None => {
            return None;
        },
    };
    let mut records: Vec<SubjectRecord> = Vec::new();
    let mut pos: usize = p1;
    let mut k: u64 = 0;
    proof {
        assert(records@.map_values(|x: SubjectRecord| x@) =~= Seq::<RecordModel>::empty());
    }
    while k < n
        invariant
            k <= n,
            parse_records(bytes@, p1 as int, n as nat, Seq::empty()) == parse_records(
                bytes@,
                pos as int,
                (n - k) as nat,
                records@.map_values(|x: SubjectRecord| x@),
            ),
            parse_u64(bytes@, 0) == Some((n, p1 as int)),
        decreases n - k,
    {
        let ghost old_pos = pos as int;
        let ghost old_m = records@.map_values(|x: SubjectRecord| x@);
        let (rec, p2) = match try_read_record(bytes, pos) {
            Some(v) => v,
            None => {
                proof {
                    assert(parse_records(bytes@, old_pos, (n - k) as nat, old_m) is None);
                }
                return None;
            },
        };
        records.push(rec);
        pos = p2;
        proof {
            assert(records@.map_values(|x: SubjectRecord| x@) =~= old_m.push(rec@));
            assert(parse_records(bytes@, old_pos, (n - k) as nat, old_m) == parse_records(
                bytes@,
                pos as int,
                (n - (k + 1)) as nat,
                old_m.push(rec@),
            ));
        }
        k = k + 1;
    }
    let ghost m = records@.map_values(|x: SubjectRecord| x@);
    proof {
        assert(parse_records(bytes@, pos as int, 0, m) == Some((m, pos as int)));
    }
    if pos != bytes.len() {
        return None;
    }
    if !ids_unique(&records) {
        return None;
    }
    let s = Store { records };
    proof {
        s.lemma_view();
        assert(s@ =~= m);
    }
    Some(s)
}

/// Where the bytes at `pos` are the encoding of `x`, parsing reads back
/// exactly `x`.
proof fn lemma_parse_u64_at(b: Seq<u8>, pos: int, x: u64)
    requires
        0 <= pos,
        pos + 8 <= b.len(),
        b.subrange(pos, pos + 8) == u64_le(x),
    ensures
        parse_u64(b, pos) == Some((x, pos + 8)),
{
    lemma_u64_le_round_trip(x);
}

/// Where the bytes at `pos` are `e` and `part` sits at offset `lo`
/// within `e`, the bytes at `pos + lo` are `part`.
proof fn lemma_bytes_at(b: Seq<u8>, pos: int, e: Seq<u8>, lo: int, part: Seq<u8>)
    requires
        0 <= pos,
        pos + e.len() <= b.len(),
        b.subrange(pos, pos + e.len()) == e,
        0 <= lo,
        lo + part.len() <= e.len(),
        e.subrange(lo, lo + part.len()) == part,
    ensures
        b.subrange(pos + lo, pos + lo + part.len()) == part,
{
    assert forall|i: int| 0 <= i < part.len() implies b[pos + lo + i] == part[i] by {
        assert(b.subrange(pos, pos + e.len())[lo + i] == e[lo + i]);
        assert(e.subrange(lo, lo + part.len())[i] == e[lo + i]);
    }
    assert(b.subrange(pos + lo, pos + lo + part.len()) =~= part);
}

/// A peer list's bytes are sixteen per entry.
proof fn lemma_peers_bytes_len(ps: Seq<PeerAssessment>)
    ensures
        peers_bytes(ps).len() == 16 * ps.len(),
    decreases ps.len(),
{
    if ps.len() > 0 {
        lemma_peers_bytes_len(ps.drop_first());
    }
}

/// Where the bytes at `pos` encode the peer list `rest`, parsing that
/// many entries appends exactly `rest` to the accumulator.
proof fn lemma_parse_peers_round_trip(
    b: Seq<u8>,
    pos: int,
    done: Seq<PeerAssessment>,
    rest: Seq<PeerAssessment>,
)
    requires
        0 <= pos,
        pos + peers_bytes(rest).len() <= b.len(),
        b.subrange(pos, pos + peers_bytes(rest).len()) == peers_bytes(rest),
    ensures
        parse_peers(b, pos, rest.len(), done) == Some((done + rest, pos + peers_bytes(rest).len())),
    decreases rest.len(),
{
    if rest.len() == 0 {
        assert(done + rest =~= done);
    } else {
        let p0 = rest[0];
        let tail = rest.drop_first();
        lemma_peers_bytes_len(rest);
        lemma_peers_bytes_len(tail);
        let e = peers_bytes(rest);
        assert(e.subrange(0, 8) =~= u64_le(p0.assessor));
        assert(e.subrange(8, 16) =~= u64_le(p0.set.bits));
        assert(e.subrange(16, e.len() as int) =~= peers_bytes(tail));
        lemma_bytes_at(b, pos, e, 0, u64_le(p0.assessor));
        lemma_bytes_at(b, pos, e, 8, u64_le(p0.set.bits));
        lemma_bytes_at(b, pos, e, 16, peers_bytes(tail));
        lemma_parse_u64_at(b, pos, p0.assessor);
        lemma_parse_u64_at(b, pos + 8, p0.set.bits);
        let pa = PeerAssessment { assessor: p0.assessor, set: TraitSet { bits: p0.set.bits } };
        assert(pa == p0);
        lemma_parse_peers_round_trip(b, pos + 16, done.push(p0), tail);
        assert(done.push(p0) + tail =~= done + rest);
    }
}

/// Where the bytes at `pos` encode the record `r`, parsing reads back
/// exactly `r`.
proof fn lemma_parse_record_round_trip(b: Seq<u8>, pos: int, r: RecordModel)
    requires
        0 <= pos,
        pos + record_bytes(r).len() <= b.len(),
        b.subrange(pos, pos + record_bytes(r).len()) == record_bytes(r),
        r.peers.len() <= u64::MAX,
    ensures
        parse_record(b, pos) == Some((r, pos + record_bytes(r).len())),
{
    lemma_peers_bytes_len(r.peers);
    let e = record_bytes(r);
    assert(e.subrange(0, 8) =~= u64_le(r.id));
    assert(e.subrange(8, 16) =~= u64_le(own_flag(r)));
    assert(e.subrange(16, 24) =~= u64_le(own_bits(r)));
    assert(e.subrange(24, 32) =~= u64_le(r.peers.len() as u64));
    assert(e.subrange(32, e.len() as int) =~= peers_bytes(r.peers));
    lemma_bytes_at(b, pos, e, 0, u64_le(r.id));
    lemma_bytes_at(b, pos, e, 8, u64_le(own_flag(r)));
    lemma_bytes_at(b, pos, e, 16, u64_le(own_bits(r)));
    lemma_bytes_at(b, pos, e, 24, u64_le(r.peers.len() as u64));
    lemma_bytes_at(b, pos, e, 32, peers_bytes(r.peers));
    lemma_parse_u64_at(b, pos, r.id);
    lemma_parse_u64_at(b, pos + 8, own_flag(r));
    lemma_parse_u64_at(b, pos + 16, own_bits(r));
    lemma_parse_u64_at(b, pos + 24, r.peers.len() as u64);
    lemma_parse_peers_round_trip(b, pos + 32, Seq::empty(), r.peers);
    assert(Seq::<PeerAssessment>::empty() + r.peers =~= r.peers);
    let parsed = RecordModel {
        id: r.id,
        own: if own_flag(r) == 1 {
            Some(TraitSet { bits: own_bits(r) })
        } else {
            None
        },
        peers: Seq::<PeerAssessment>::empty() + r.peers,
    };
    assert(parsed.own == r.own);
    assert(parsed == r);
}

/// Where the bytes at `pos` encode the record list `rest`, parsing that
/// many records appends exactly `rest` to the accumulator.
proof fn lemma_parse_records_round_trip(
    b: Seq<u8>,
    pos: int,
    done: Seq<RecordModel>,
    rest: Seq<RecordModel>,
)
    requires
        0 <= pos,
        pos + records_bytes(rest).len() <= b.len(),
        b.subrange(pos, pos + records_bytes(rest).len()) == records_bytes(rest),
        forall|k: int| 0 <= k < rest.len() ==> (#[trigger] rest[k]).peers.len() <= u64::MAX,
    ensures
        parse_records(b, pos, rest.len(), done) == Some(
            (done + rest, pos + records_bytes(rest).len()),
        ),
    decreases rest.len(),
{
    if rest.len() == 0 {
        assert(done + rest =~= done);
    } else {
        let r0 = rest[0];
        let tail = rest.drop_first();
        let len0 = record_bytes(r0).len() as int;
        let e = records_bytes(rest);
        assert(e.subrange(0, len0) =~= record_bytes(r0));
        assert(e.subrange(len0, e.len() as int) =~= records_bytes(tail));
        lemma_bytes_at(b, pos, e, 0, record_bytes(r0));
        lemma_bytes_at(b, pos, e, len0, records_bytes(tail));
        lemma_parse_record_round_trip(b, pos, r0);
        assert(forall|k: int| 0 <= k < tail.len() ==> #[trigger] tail[k] == rest[k + 1]);
        lemma_parse_records_round_trip(b, pos + len0, done.push(r0), tail);
        assert(done.push(r0) + tail =~= done + rest);
    }
}

/// Lossless round trip: decoding the encoding of any well-formed store
/// contents yields exactly those contents — every id, every own set, and
/// the full ordered peer list including duplicate assessor entries.
pub proof fn lemma_store_round_trip(m: Seq<RecordModel>)
    requires
        store_wf(m),
        m.len() <= u64::MAX,
        forall|k: int| 0 <= k < m.len() ==> (#[trigger] m[k]).peers.len() <= u64::MAX,
    ensures
        decode_spec(store_bytes(m)) == Some(m),
{
    let b = store_bytes(m);
    assert(b.subrange(0, b.len() as int) =~= b);
    assert(b.subrange(0, 8) =~= u64_le(m.len() as u64));
    assert(b.subrange(8, b.len() as int) =~= records_bytes(m));
    lemma_parse_u64_at(b, 0, m.len() as u64);
    lemma_parse_records_round_trip(b, 8, Seq::empty(), m);
    assert(Seq::<RecordModel>::empty() + m =~= m);
}

/// Loads a store from the content of a durable resource, if any.
///
/// An absent resource yields the empty store, so a dataset can be
/// bootstrapped from nothing; content that does not parse as a valid
/// collection also falls back to the empty store rather than failing.
pub fn load_store(content: Option<&Vec<u8>>) -> (r: Store)
    ensures
        r.wf(),
        match content {
            None => r@ =~= Seq::<RecordModel>::empty(),
            Some(b) => match decode_spec(b@) {
                Some(m) => r@ == m,
                None => r@ =~= Seq::<RecordModel>::empty(),
            },
        },
{
    match content {
        None => Store::new(),
        Some(b) => match decode_store(b) {
            Some(s) => s,
            None => Store::new(),
        },
    }
}

} // verus!
