use vstd::prelude::*;

use crate::key_order::{compare_keys, key_lt, lemma_key_lt_transitive, KeyOrder};
use crate::search::{keys_sorted, proof_value, snap_view, EntryView, IndexProof, MAX_SNAPSHOT_LEN};

verus! {

/// bincode's error, carried through only to be mapped to an error of the map.
#[verifier::external_type_specification]
#[verifier::external_body]
pub struct ExBincodeErrorKind(bincode::ErrorKind);

/// Hints as plain values, in the order they are encoded: the number of reads,
/// the snapshots, the sort proofs, one access entry per read (a match as `Ok`,
/// a miss as `Err`), and the epoch-switch log.
pub type HintsWire = (usize, Seq<Seq<EntryView>>, Seq<Seq<usize>>, Seq<Result<usize, (i32, i32)>>, Seq<usize>);

/// The bytes that bincode writes for hints.
pub uninterp spec fn bincode_hints(
    h: (usize, Seq<Seq<(Seq<char>, u32)>>, Seq<Seq<usize>>, Seq<Result<usize, (i32, i32)>>, Seq<usize>),
) -> Seq<u8>;

/// Snapshots as plain values.
pub open spec fn snaps_view(v: Seq<Vec<(String, u32)>>) -> Seq<Seq<EntryView>> {
    v.map_values(|s: Vec<(String, u32)>| snap_view(s@))
}

/// Sort proofs as plain values.
pub open spec fn proofs_view(v: Seq<Vec<usize>>) -> Seq<Seq<usize>> {
    v.map_values(|s: Vec<usize>| s@)
}

/// An access entry in the shape it is encoded in: bincode writes an enum as
/// its variant number followed by its fields, so `Ok`/`Err` encode exactly as
/// `Match`/`Miss` do.
pub open spec fn proof_to_wire(p: IndexProof) -> Result<usize, (i32, i32)> {
    match p {
        IndexProof::Match(i) => Ok(i),
        IndexProof::Miss(lo, hi) => Err((lo, hi)),
    }
}

/// An access entry from the shape it is encoded in.
pub open spec fn wire_to_proof(w: Result<usize, (i32, i32)>) -> IndexProof {
    match w {
        Ok(i) => IndexProof::Match(i),
        Err((lo, hi)) => IndexProof::Miss(lo, hi),
    }
}

/// Number of epoch switches at or before read position `p` (counted from 0):
/// the index of the snapshot that read `p` is answered against.
pub open spec fn epoch_of(sw: Seq<usize>, p: int) -> nat
    decreases sw.len(),
{
    if sw.len() == 0 {
        0
    } else if sw.last() <= p {
        sw.len()
    } else {
        epoch_of(sw.drop_last(), p)
    }
}

/// Each element is below every later one.
pub open spec fn strictly_ascending(sw: Seq<usize>) -> bool {
    forall|i: int, j: int| 0 <= i < j < sw.len() ==> sw[i] < sw[j]
}

/// Value that replaying read `p` yields.
pub open spec fn replay_value(
    snaps: Seq<Seq<EntryView>>,
    access: Seq<IndexProof>,
    sw: Seq<usize>,
    p: int,
) -> Option<u32> {
    proof_value(snaps[epoch_of(sw, p) as int], access[p])
}

/// Hints that a replay can run on: one snapshot per epoch, each sorted; one
/// access entry per read; a switch log that ascends strictly and stays within
/// the reads; every match inside the snapshot of its read's epoch.
pub open spec fn hints_valid(
    get_count: nat,
    snaps: Seq<Seq<EntryView>>,
    access: Seq<IndexProof>,
    sw: Seq<usize>,
) -> bool {
    &&& snaps.len() >= 1
    &&& sw.len() + 1 == snaps.len()
    &&& access.len() == get_count
    &&& strictly_ascending(sw)
    &&& forall|j: int| 0 <= j < sw.len() ==> #[trigger] sw[j] <= get_count
    &&& forall|e: int|
        0 <= e < snaps.len() ==> keys_sorted(#[trigger] snaps[e]) && snaps[e].len() <= MAX_SNAPSHOT_LEN
    &&& forall|p: int|
        0 <= p < get_count ==> match #[trigger] access[p] {
            IndexProof::Match(i) => i < snaps[epoch_of(sw, p) as int].len(),
            IndexProof::Miss(_, _) => true,
        }
}

/// Encoded hints that a replay can run on, with one sort proof per snapshot.
pub open spec fn wire_valid(h: HintsWire) -> bool {
    &&& h.2.len() == h.1.len()
    &&& hints_valid(h.0 as nat, h.1, h.3.map_values(|w: Result<usize, (i32, i32)>| wire_to_proof(w)), h.4)
}

pub proof fn lemma_epoch_bound(sw: Seq<usize>, p: int)
    ensures
        epoch_of(sw, p) <= sw.len(),
    decreases sw.len(),
{
    if sw.len() > 0 && sw.last() > p {
        lemma_epoch_bound(sw.drop_last(), p);
    }
}

pub proof fn lemma_epoch_below_last(sw: Seq<usize>, p: int)
    requires
        sw.len() > 0,
        p < sw.last(),
    ensures
        epoch_of(sw, p) < sw.len(),
{
    lemma_epoch_bound(sw.drop_last(), p);
}

pub proof fn lemma_epoch_push(sw: Seq<usize>, x: usize, p: int)
    requires
        p < x,
    ensures
        epoch_of(sw.push(x), p) == epoch_of(sw, p),
{
    assert(sw.push(x).drop_last() =~= sw);
}

/// In an ascending log, the epoch of `p` is the number of leading switches at
/// or before `p`.
pub proof fn lemma_epoch_exact(sw: Seq<usize>, p: int, k: int)
    requires
        strictly_ascending(sw),
        0 <= k <= sw.len(),
        forall|j: int| 0 <= j < k ==> sw[j] <= p,
        k == sw.len() || p < sw[k],
    ensures
        epoch_of(sw, p) == k,
    decreases sw.len(),
{
    if sw.len() > 0 && k < sw.len() {
        assert(p < sw.last());
        assert(strictly_ascending(sw.drop_last()));
        lemma_epoch_exact(sw.drop_last(), p, k);
    }
}

/// In an ascending log, every switch before the epoch of `p` is at or before `p`.
pub proof fn lemma_epoch_prefix(sw: Seq<usize>, p: int, j: int)
    requires
        strictly_ascending(sw),
        0 <= j < epoch_of(sw, p),
    ensures
        sw[j] <= p,
    decreases sw.len(),
{
    if sw.len() > 0 {
        if sw.last() <= p {
            if j < sw.len() - 1 {
                assert(sw[j] < sw.last());
            } else {
                assert(sw[j] == sw.last());
            }
        } else {
            assert(strictly_ascending(sw.drop_last()));
            lemma_epoch_bound(sw.drop_last(), p);
            lemma_epoch_prefix(sw.drop_last(), p, j);
            assert(sw.drop_last()[j] == sw[j]);
        }
    }
}

/// In an ascending log, a switch at the epoch of `p` lies after `p`.
pub proof fn lemma_epoch_suffix(sw: Seq<usize>, p: int)
    requires
        strictly_ascending(sw),
        epoch_of(sw, p) < sw.len(),
    ensures
        p < sw[epoch_of(sw, p) as int],
    decreases sw.len(),
{
    if sw.len() > 0 && sw.last() > p {
        let d = sw.drop_last();
        assert(strictly_ascending(d));
        lemma_epoch_bound(d, p);
        if epoch_of(d, p) < d.len() {
            lemma_epoch_suffix(d, p);
            assert(d[epoch_of(d, p) as int] == sw[epoch_of(d, p) as int]);
        }
    }
}

/// Access entries in the shape they are encoded in.
pub fn access_to_wire(access: &Vec<IndexProof>) -> (r: Vec<Result<usize, (i32, i32)>>)
    ensures
        r@ == access@.map_values(|p: IndexProof| proof_to_wire(p)),
{
    let mut r: Vec<Result<usize, (i32, i32)>> = Vec::new();
    let mut i: usize = 0;
    while i < access.len()
        invariant
            i <= access.len(),
            r@ == access@.subrange(0, i as int).map_values(|p: IndexProof| proof_to_wire(p)),
        decreases access.len() - i,
    {
        let w = match access[i] {
            IndexProof::Match(k) => Ok(k),
            IndexProof::Miss(lo, hi) => Err((lo, hi)),
        };
        r.push(w);
        i = i + 1;
        assert(r@ =~= access@.subrange(0, i as int).map_values(|p: IndexProof| proof_to_wire(p)));
    }
    assert(access@.subrange(0, i as int) =~= access@);
    r
}

/// Access entries from the shape they are encoded in.
pub fn access_from_wire(wire: &Vec<Result<usize, (i32, i32)>>) -> (r: Vec<IndexProof>)
    ensures
        r@ == wire@.map_values(|w: Result<usize, (i32, i32)>| wire_to_proof(w)),
{
    let mut r: Vec<IndexProof> = Vec::new();
    let mut i: usize = 0;
    while i < wire.len()
        invariant
            i <= wire.len(),
            r@ == wire@.subrange(0, i as int).map_values(|w: Result<usize, (i32, i32)>| wire_to_proof(w)),
        decreases wire.len() - i,
    {
        let p = match wire[i] {
            Ok(k) => IndexProof::Match(k),
            Err((lo, hi)) => IndexProof::Miss(lo, hi),
        };
        r.push(p);
        i = i + 1;
        assert(r@ =~= wire@.subrange(0, i as int).map_values(
            |w: Result<usize, (i32, i32)>| wire_to_proof(w),
        ));
    }
    assert(wire@.subrange(0, i as int) =~= wire@);
    r
}

/// Whether the entries of a snapshot ascend strictly by key.
pub fn snapshot_sorted(s: &Vec<(String, u32)>) -> (r: bool)
    ensures
        r == keys_sorted(snap_view(s@)),
{
    let ghost v = snap_view(s@);
    let mut i: usize = 1;
    while i < s.len()
        invariant
            v == snap_view(s@),
            1 <= i,
            forall|a: int, b: int| 0 <= a < b < i && b < v.len() ==> key_lt(#[trigger] v[a].0, #[trigger] v[b].0),
        decreases s.len() - i,
    {
        match compare_keys(&s[i - 1].0, &s[i].0) {
            KeyOrder::Less => {},
            _ => {
                assert(!key_lt(v[i - 1].0, v[i as int].0));
                return false;
            },
        }
        assert forall|a: int, b: int| 0 <= a < b < i + 1 && b < v.len() implies key_lt(#[trigger] v[a].0, #[trigger] v[b].0) by {
            if b == i && a < i - 1 {
                lemma_key_lt_transitive(v[a].0, v[i - 1].0, v[b].0);
            }
        }
        i = i + 1;
    }
    true
}

/// Whether a replay can run on these hints.
pub fn check_hints(
    get_count: usize,
    snaps: &Vec<Vec<(String, u32)>>,
    proofs_len: usize,
    access: &Vec<IndexProof>,
    sw: &Vec<usize>,
) -> (r: bool)
    ensures
        r == (proofs_len == snaps.len() && hints_valid(get_count as nat, snaps_view(snaps@), access@, sw@)),
{
    let ghost sv = snaps_view(snaps@);
    if snaps.len() == 0 || sw.len() != snaps.len() - 1 || access.len() != get_count || proofs_len != snaps.len() {
        return false;
    }
    let mut j: usize = 0;
    while j < sw.len()
        invariant
            j <= sw.len(),
            forall|a: int, b: int| 0 <= a < b < j ==> sw@[a] < sw@[b],
            forall|a: int| 0 <= a < j ==> #[trigger] sw@[a] <= get_count,
        decreases sw.len() - j,
    {
        if sw[j] > get_count {
            return false;
        }
        if j > 0 && sw[j - 1] >= sw[j] {
            return false;
        }
        j = j + 1;
    }
    let mut e: usize = 0;
    while e < snaps.len()
        invariant
            e <= snaps.len(),
            sv == snaps_view(snaps@),
            forall|k: int| 0 <= k < e ==> keys_sorted(#[trigger] sv[k]) && sv[k].len() <= MAX_SNAPSHOT_LEN,
        decreases snaps.len() - e,
    {
        assert(sv[e as int] == snap_view(snaps@[e as int]@));
        if snaps[e].len() > MAX_SNAPSHOT_LEN || !snapshot_sorted(&snaps[e]) {
            return false;
        }
        e = e + 1;
    }
    let mut p: usize = 0;
    let mut ep: usize = 0;
    while p < access.len()
        invariant
            strictly_ascending(sw@),
            sw.len() + 1 == snaps.len(),
            access.len() == get_count,
            sv == snaps_view(snaps@),
            p <= access.len(),
            ep <= sw.len(),
            forall|k: int| 0 <= k < ep ==> sw@[k] <= p,
            forall|q: int| 0 <= q < p ==> match #[trigger] access@[q] {
                IndexProof::Match(i) => i < sv[epoch_of(sw@, q) as int].len(),
                IndexProof::Miss(_, _) => true,
            },
        decreases access.len() - p,
    {
        while ep < sw.len() && sw[ep] <= p
            invariant
                ep <= sw.len(),
                forall|k: int| 0 <= k < ep ==> sw@[k] <= p,
            decreases sw.len() - ep,
        {
            ep = ep + 1;
        }
        proof {
            lemma_epoch_exact(sw@, p as int, ep as int);
        }
        match access[p] {
            IndexProof::Match(i) => {
                if i >= snaps[ep].len() {
                    return false;
                }
            },
            IndexProof::Miss(_, _) => {},
        }
        p = p + 1;
    }
    true
}

/// Relies on bincode::serialize, which writes the hints in bincode's fixed-width
/// little-endian format; the bytes depend on the values alone. With no size
/// limit, and sequences that all know their length, it does not fail on these
/// types.
#[verifier::external_body]
pub(crate) fn encode_hints(
    get_count: usize,
    snaps: &Vec<Vec<(String, u32)>>,
    proofs: &Vec<Vec<usize>>,
    access: &Vec<Result<usize, (i32, i32)>>,
    switches: &Vec<usize>,
) -> (r: Result<Vec<u8>, Box<bincode::ErrorKind>>)
    ensures
        r is Ok,
        r matches Ok(b) ==> b@ == bincode_hints(
            (get_count, snaps_view(snaps@), proofs_view(proofs@), access@, switches@),
        ),
{
    bincode::serialize(&(get_count, snaps, proofs, access, switches))
}

/// Relies on bincode::deserialize, which reads back what bincode::serialize
/// wrote for values of the same types.
#[verifier::external_body]
pub(crate) fn decode_hints(bytes: &[u8]) -> (r: Result<
    (usize, Vec<Vec<(String, u32)>>, Vec<Vec<usize>>, Vec<Result<usize, (i32, i32)>>, Vec<usize>),
    Box<bincode::ErrorKind>,
>)
    ensures
        forall|h: HintsWire|
            bytes@ == bincode_hints(h) ==> match r {
                Ok(v) => (v.0, snaps_view(v.1@), proofs_view(v.2@), v.3@, v.4@) == h,
                Err(_) => false,
            },
{
    bincode::deserialize(bytes)
}

} // verus!
