use vstd::prelude::*;

use crate::key_order::{
    compare_keys, key_lt, lemma_key_lt_irreflexive, lemma_key_lt_total, lemma_key_lt_transitive,
    KeyOrder,
};

verus! {

/// Largest number of entries a snapshot may hold: a miss records its
/// bracketing positions as `i32`.
pub const MAX_SNAPSHOT_LEN: usize = 2147483647;

/// Where a read found its key in a snapshot.
#[derive(PartialEq, Eq, Structural, Clone, Copy, Debug)]
pub enum IndexProof {
    /// The key is the entry at this position.
    Match(usize),
    /// The key is absent; it would lie between these two positions.
    /// The lower one is `-1` when the key precedes every entry.
    Miss(i32, i32),
}

/// An entry as a plain value: the key's characters and the value.
pub type EntryView = (Seq<char>, u32);

/// A snapshot as plain values.
pub open spec fn snap_view(s: Seq<(String, u32)>) -> Seq<EntryView> {
    s.map_values(|e: (String, u32)| (e.0@, e.1))
}

/// Entries strictly ascending by key.
pub open spec fn keys_sorted(s: Seq<EntryView>) -> bool {
    forall|i: int, j: int| 0 <= i < j < s.len() ==> key_lt(#[trigger] s[i].0, #[trigger] s[j].0)
}

/// What a search for `t` in `s` must return: the position of `t`, or else
/// the pair that brackets the place where `t` would be inserted.
pub open spec fn search_post(s: Seq<EntryView>, t: Seq<char>, r: IndexProof) -> bool {
    match r {
        IndexProof::Match(i) => i < s.len() && s[i as int].0 == t,
        IndexProof::Miss(lo, hi) => {
            &&& 0 <= hi <= s.len()
            &&& lo == hi - 1
            &&& forall|j: int| 0 <= j < hi ==> key_lt(#[trigger] s[j].0, t)
            &&& forall|j: int| hi <= j < s.len() ==> key_lt(t, #[trigger] s[j].0)
        },
    }
}

/// Value found at a search outcome: the entry's value on a match, none on a miss.
pub open spec fn proof_value(s: Seq<EntryView>, r: IndexProof) -> Option<u32> {
    match r {
        IndexProof::Match(i) => Some(s[i as int].1),
        IndexProof::Miss(_, _) => None,
    }
}

/// Value bound to `t` in `s`, if any.
pub open spec fn snapshot_lookup(s: Seq<EntryView>, t: Seq<char>) -> Option<u32> {
    if exists|i: int| 0 <= i < s.len() && s[i].0 == t {
        Some(s[choose|i: int| 0 <= i < s.len() && s[i].0 == t].1)
    } else {
        None
    }
}

/// In a sorted snapshot a key occurs at most once.
pub proof fn lemma_sorted_key_unique(s: Seq<EntryView>, i: int, j: int)
    requires
        keys_sorted(s),
        0 <= i < s.len(),
        0 <= j < s.len(),
        s[i].0 == s[j].0,
    ensures
        i == j,
{
    if i < j {
        lemma_key_lt_irreflexive(s[i].0);
    } else if j < i {
        lemma_key_lt_irreflexive(s[i].0);
    }
}

/// In a sorted snapshot, a search outcome is determined by the snapshot and
/// the key, and its value is the value bound to the key.
pub proof fn lemma_search_determined(s: Seq<EntryView>, t: Seq<char>, r1: IndexProof, r2: IndexProof)
    requires
        keys_sorted(s),
        search_post(s, t, r1),
        search_post(s, t, r2),
    ensures
        r1 == r2,
        proof_value(s, r1) == snapshot_lookup(s, t),
{
    lemma_key_lt_irreflexive(t);
    match r1 {
        IndexProof::Match(i) => {
            match r2 {
                IndexProof::Match(k) => {
                    lemma_sorted_key_unique(s, i as int, k as int);
                },
                IndexProof::Miss(lo, hi) => {
                    if (i as int) < hi {
                        assert(key_lt(s[i as int].0, t));
                    } else {
                        assert(key_lt(t, s[i as int].0));
                    }
                },
            }
            let k = choose|k: int| 0 <= k < s.len() && s[k].0 == t;
            lemma_sorted_key_unique(s, i as int, k);
        },
        IndexProof::Miss(lo1, hi1) => {
            match r2 {
                IndexProof::Match(k) => {
                    if (k as int) < hi1 {
                        assert(key_lt(s[k as int].0, t));
                    } else {
                        assert(key_lt(t, s[k as int].0));
                    }
                },
                IndexProof::Miss(lo2, hi2) => {
                    if hi1 < hi2 {
                        assert(key_lt(s[hi1 as int].0, t));
                        assert(key_lt(t, s[hi1 as int].0));
                        lemma_key_lt_transitive(t, s[hi1 as int].0, t);
                    } else if hi2 < hi1 {
                        assert(key_lt(s[hi2 as int].0, t));
                        assert(key_lt(t, s[hi2 as int].0));
                        lemma_key_lt_transitive(t, s[hi2 as int].0, t);
                    }
                },
            }
            if exists|k: int| 0 <= k < s.len() && s[k].0 == t {
                let k = choose|k: int| 0 <= k < s.len() && s[k].0 == t;
                if k < hi1 {
                    assert(key_lt(s[k].0, t));
                } else {
                    assert(key_lt(t, s[k].0));
                }
            }
        },
    }
}

/// A search finds a key wherever it occurs: on a key of the snapshot the
/// outcome is a match at its position, and a miss means the key is absent.
pub proof fn lemma_search_finds_present_key(s: Seq<EntryView>, t: Seq<char>, r: IndexProof, i: int)
    requires
        keys_sorted(s),
        search_post(s, t, r),
        0 <= i < s.len(),
        s[i].0 == t,
    ensures
        r == IndexProof::Match(i as usize),
{
    lemma_key_lt_irreflexive(t);
    match r {
        IndexProof::Match(k) => {
            lemma_sorted_key_unique(s, i, k as int);
        },
        IndexProof::Miss(_, hi) => {
            if i < hi {
                assert(key_lt(s[i].0, t));
            } else {
                assert(key_lt(t, s[i].0));
            }
        },
    }
}

/// Half-interval search for `target` in a sorted snapshot.
pub fn search_snapshot(snap: &Vec<(String, u32)>, target: &String) -> (r: IndexProof)
    requires
        keys_sorted(snap_view(snap@)),
        snap.len() <= MAX_SNAPSHOT_LEN,
    ensures
        search_post(snap_view(snap@), target@, r),
{
    if snap.len() == 0 {
        return IndexProof::Miss(-1, 0);
    }
    let mut low: usize = 0;
    let mut high: usize = snap.len() - 1;
    while low <= high
        invariant
            keys_sorted(snap_view(snap@)),
            snap.len() <= MAX_SNAPSHOT_LEN,
            high < snap.len(),
            low <= high + 1,
            forall|j: int| 0 <= j < low ==> key_lt(#[trigger] snap_view(snap@)[j].0, target@),
            forall|j: int| high < j < snap.len() ==> key_lt(target@, #[trigger] snap_view(snap@)[j].0),
        decreases high + 1 - low,
    {
        let mid: usize = low + (high - low) / 2;
        let c = compare_keys(&snap[mid].0, target);
        match c {
            KeyOrder::Equal => {
                return IndexProof::Match(mid);
            },
            KeyOrder::Less => {
                assert forall|j: int| 0 <= j < mid + 1 implies key_lt(#[trigger] snap_view(snap@)[j].0, target@) by {
                    if j < mid {
                        lemma_key_lt_transitive(snap_view(snap@)[j].0, snap_view(snap@)[mid as int].0, target@);
                    }
                }
                low = mid + 1;
            },
            KeyOrder::Greater => {
                proof {
                    lemma_key_lt_total(snap_view(snap@)[mid as int].0, target@);
                }
                assert forall|j: int| mid <= j < snap.len() implies key_lt(target@, #[trigger] snap_view(snap@)[j].0) by {
                    if mid < j {
                        lemma_key_lt_transitive(target@, snap_view(snap@)[mid as int].0, snap_view(snap@)[j].0);
                    }
                }
                if mid == 0 {
                    return IndexProof::Miss(-1, 0);
                }
                high = mid - 1;
            },
        }
    }
    IndexProof::Miss(low as i32 - 1, low as i32)
}

} // verus!
