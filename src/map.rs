use vstd::prelude::*;

use crate::hints::{
    access_from_wire, access_to_wire, bincode_hints, check_hints, decode_hints, encode_hints,
    wire_to_proof, wire_valid, epoch_of, hints_valid, lemma_epoch_below_last, lemma_epoch_bound, lemma_epoch_exact,
    lemma_epoch_prefix, lemma_epoch_push, lemma_epoch_suffix, proof_to_wire, replay_value, strictly_ascending, HintsWire,
};
use crate::key_order::key_lt;
use crate::search::{
    keys_sorted, lemma_search_determined, proof_value, search_post, search_snapshot,
    snap_view, snapshot_lookup, EntryView, IndexProof, MAX_SNAPSHOT_LEN,
};

verus! {

/// Whether a map records hints or replays them.
#[derive(PartialEq, Eq, Structural, Clone, Copy, Debug)]
pub enum Mode {
    /// Full map: answers reads by search and logs where each key was found.
    Recording,
    /// Answers reads from imported hints, by position in the access log.
    Replaying,
}

/// Why an operation was refused.
#[derive(PartialEq, Eq, Structural, Clone, Copy, Debug)]
pub enum MapError {
    /// The key was inserted before; overwriting is not supported.
    DuplicateKey,
    /// The current snapshot holds `MAX_SNAPSHOT_LEN` entries.
    SnapshotFull,
    /// The hint bytes do not decode.
    HintsUndecodable,
    /// The hints decode but a replay cannot run on them.
    HintsInconsistent,
}

/// A map whose reads can be replayed from recorded hints.
pub struct SovereignMap {
    mode: Mode,
    /// Reads seen by the last insert; more reads since then open a new epoch.
    insert_observed_get_count: usize,
    /// Reads recorded (recording) or expected (replaying).
    get_count: usize,
    /// One sorted snapshot per insert-epoch; the last is current while recording.
    store_array_snaps: Vec<Vec<(String, u32)>>,
    /// For each snapshot, the position in the input order of each of its entries.
    store_array_sort_proofs: Vec<Vec<usize>>,
    /// One entry per read: where its key was found.
    access_pattern: Vec<IndexProof>,
    /// Read counts after which an insert opened a new epoch.
    get_count_switch_tracker: Vec<usize>,
    /// Every inserted entry, in insertion order.
    original_input_array: Vec<(String, u32)>,
    /// Reads replayed so far.
    current_get_count: usize,
    /// Snapshot that reads are answered against.
    store_array_index: usize,
    /// Keys of the recorded reads.
    read_keys: Ghost<Seq<Seq<char>>>,
    /// Answers of the recorded reads.
    answers: Ghost<Seq<Option<u32>>>,
}

/// The value behind an optional reference.
pub open spec fn opt_val(r: Option<&u32>) -> Option<u32> {
    match r {
        Some(v) => Some(*v),
        None => None,
    }
}

/// Some key of `s` equals `k`.
pub open spec fn has_key(s: Seq<EntryView>, k: Seq<char>) -> bool {
    exists|i: int| 0 <= i < s.len() && s[i].0 == k
}

/// Each recorded read found its key where its log entry says, in the
/// snapshot of its epoch, and was answered with the value found there.
pub open spec fn reads_aligned(
    snaps: Seq<Seq<EntryView>>,
    sw: Seq<usize>,
    access: Seq<IndexProof>,
    keys: Seq<Seq<char>>,
    answers: Seq<Option<u32>>,
) -> bool {
    forall|p: int|
        0 <= p < access.len() ==> {
            &&& search_post(snaps[epoch_of(sw, p) as int], keys[p], #[trigger] access[p])
            &&& answers[p] == replay_value(snaps, access, sw, p)
        }
}

/// Each sort proof maps the entries of its snapshot to their positions in the
/// input order.
pub open spec fn sort_proofs_sound(
    snaps: Seq<Seq<EntryView>>,
    proofs: Seq<Seq<usize>>,
    ins: Seq<EntryView>,
) -> bool {
    &&& proofs.len() == snaps.len()
    &&& forall|e: int| 0 <= e < snaps.len() ==> #[trigger] proofs[e].len() == snaps[e].len()
    &&& forall|e: int, j: int|
        0 <= e < snaps.len() && 0 <= j < snaps[e].len() ==> {
            &&& #[trigger] proofs[e][j] < ins.len()
            &&& ins[proofs[e][j] as int] == snaps[e][j]
        }
}

/// The entry `x` occurs in `s`.
pub open spec fn has_entry(s: Seq<EntryView>, x: EntryView) -> bool {
    exists|j: int| 0 <= j < s.len() && s[j] == x
}

/// Every input entry occurs in `s`.
pub open spec fn inputs_in(s: Seq<EntryView>, ins: Seq<EntryView>) -> bool {
    forall|i: int| 0 <= i < ins.len() ==> has_entry(s, #[trigger] ins[i])
}

/// No key occurs twice.
pub open spec fn keys_distinct(ins: Seq<EntryView>) -> bool {
    forall|i: int, j: int| 0 <= i < j < ins.len() ==> #[trigger] ins[i].0 != #[trigger] ins[j].0
}

/// Inserting `e` at `pos` keeps a snapshot sorted when `pos` is where the
/// key belongs.
proof fn lemma_insert_sorted(s: Seq<EntryView>, pos: int, e: EntryView)
    requires
        keys_sorted(s),
        0 <= pos <= s.len(),
        forall|j: int| 0 <= j < pos ==> key_lt(#[trigger] s[j].0, e.0),
        forall|j: int| pos <= j < s.len() ==> key_lt(e.0, #[trigger] s[j].0),
    ensures
        keys_sorted(s.insert(pos, e)),
{
    let t = s.insert(pos, e);
    assert forall|i: int, j: int| 0 <= i < j < t.len() implies key_lt(#[trigger] t[i].0, #[trigger] t[j].0) by {
        if j < pos {
        } else if j == pos {
        } else if i < pos {
            crate::key_order::lemma_key_lt_transitive(s[i].0, e.0, s[j - 1].0);
        } else if i == pos {
        } else {
        }
    }
}

fn copy_snapshot(s: &Vec<(String, u32)>) -> (r: Vec<(String, u32)>)
    ensures
        snap_view(r@) == snap_view(s@),
{
    let mut r: Vec<(String, u32)> = Vec::new();
    let mut i: usize = 0;
    while i < s.len()
        invariant
            i <= s.len(),
            r@.len() == i,
            forall|j: int| 0 <= j < i ==> #[trigger] r@[j].0@ == s@[j].0@ && r@[j].1 == s@[j].1,
        decreases s.len() - i,
    {
        r.push((s[i].0.clone(), s[i].1));
        i = i + 1;
    }
    assert(snap_view(r@) =~= snap_view(s@));
    r
}

fn copy_indices(s: &Vec<usize>) -> (r: Vec<usize>)
    ensures
        r@ == s@,
{
    let mut r: Vec<usize> = Vec::new();
    let mut i: usize = 0;
    while i < s.len()
        invariant
            i <= s.len(),
            r@ == s@.subrange(0, i as int),
        decreases s.len() - i,
    {
        r.push(s[i]);
        i = i + 1;
        assert(r@ =~= s@.subrange(0, i as int));
    }
    assert(r@ =~= s@);
    r
}

impl SovereignMap {
    /// Whether the map records or replays.
    pub closed spec fn mode(&self) -> Mode {
        self.mode
    }

    /// Reads recorded, or expected by a replay.
    pub closed spec fn get_count(&self) -> nat {
        self.get_count as nat
    }

    /// One snapshot per insert-epoch.
    pub closed spec fn snapshots(&self) -> Seq<Seq<EntryView>> {
        self.store_array_snaps@.map_values(|s: Vec<(String, u32)>| snap_view(s@))
    }

    /// For each snapshot, the input position of each of its entries.
    pub closed spec fn sort_proofs(&self) -> Seq<Seq<usize>> {
        self.store_array_sort_proofs@.map_values(|s: Vec<usize>| s@)
    }

    /// The access log: one entry per read.
    pub closed spec fn access(&self) -> Seq<IndexProof> {
        self.access_pattern@
    }

    /// The epoch-switch log: read counts after which an insert opened an epoch.
    pub closed spec fn switches(&self) -> Seq<usize> {
        self.get_count_switch_tracker@
    }

    /// Every inserted entry, in insertion order.
    pub closed spec fn inputs(&self) -> Seq<EntryView> {
        snap_view(self.original_input_array@)
    }

    /// Reads replayed so far.
    pub closed spec fn replayed(&self) -> nat {
        self.current_get_count as nat
    }

    /// Index of the snapshot that reads are answered against.
    pub closed spec fn epoch(&self) -> nat {
        self.store_array_index as nat
    }

    /// Keys of the reads recorded so far.
    pub closed spec fn read_keys(&self) -> Seq<Seq<char>> {
        self.read_keys@
    }

    /// Answers given to the reads recorded so far.
    pub closed spec fn answers(&self) -> Seq<Option<u32>> {
        self.answers@
    }

    /// The current snapshot.
    pub open spec fn current(&self) -> Seq<EntryView> {
        self.snapshots()[self.epoch() as int]
    }

    /// The hints as the plain values that are encoded.
    pub open spec fn wire(&self) -> HintsWire {
        (
            self.get_count() as usize,
            self.snapshots(),
            self.sort_proofs(),
            self.access().map_values(|p: IndexProof| proof_to_wire(p)),
            self.switches(),
        )
    }

    /// Reads since the last epoch switch: the next insert opens a new epoch.
    pub closed spec fn reads_since_insert(&self) -> bool {
        self.get_count > self.insert_observed_get_count
    }

    /// The map's invariant. Both modes: hints a replay can run on. Recording:
    /// the current snapshot is the last and holds exactly the inputs, whose keys
    /// are distinct; sort proofs point into the inputs; every logged read is
    /// aligned with its epoch. Replaying: the epoch is that of the last read.
    pub closed spec fn well_formed(&self) -> bool {
        &&& self.store_array_sort_proofs.len() == self.store_array_snaps.len()
        &&& hints_valid(self.get_count(), self.snapshots(), self.access(), self.switches())
        &&& self.store_array_index < self.store_array_snaps.len()
        &&& match self.mode {
            Mode::Recording => self.recording_inv(),
            Mode::Replaying => {
                &&& self.current_get_count <= self.get_count
                &&& self.store_array_index == epoch_of(self.switches(), self.current_get_count - 1)
            },
        }
    }

    closed spec fn recording_inv(&self) -> bool {
        let sw = self.switches();
        let snaps = self.snapshots();
        &&& self.store_array_index + 1 == self.store_array_snaps.len()
        &&& self.current_get_count == 0
        &&& self.insert_observed_get_count == (if sw.len() == 0 { 0 } else { sw.last() })
        &&& self.insert_observed_get_count <= self.get_count
        &&& forall|j: int| 0 <= j < sw.len() ==> 1 <= #[trigger] sw[j]
        &&& self.read_keys@.len() == self.get_count
        &&& self.answers@.len() == self.get_count
        &&& reads_aligned(snaps, sw, self.access(), self.read_keys@, self.answers@)
        &&& sort_proofs_sound(snaps, self.sort_proofs(), self.inputs())
        &&& snaps.last().len() == self.inputs().len()
        &&& inputs_in(snaps.last(), self.inputs())
        &&& keys_distinct(self.inputs())
    }

    /// A read may be issued: while recording, the read count has room to grow;
    /// while replaying, a recorded read is left.
    pub open spec fn get_allowed(&self) -> bool {
        match self.mode() {
            Mode::Recording => self.get_count() < usize::MAX,
            Mode::Replaying => self.replayed() < self.get_count(),
        }
    }

    /// An empty map in recording mode, with one empty snapshot.
    pub fn new() -> (r: SovereignMap)
        ensures
            r.well_formed(),
            r.mode() == Mode::Recording,
            r.get_count() == 0,
            r.snapshots() == seq![Seq::<EntryView>::empty()],
            r.sort_proofs() == seq![Seq::<usize>::empty()],
            r.access() == Seq::<IndexProof>::empty(),
            r.switches() == Seq::<usize>::empty(),
            r.inputs() == Seq::<EntryView>::empty(),
            r.epoch() == 0,
            r.replayed() == 0,
            r.read_keys() == Seq::<Seq<char>>::empty(),
            r.answers() == Seq::<Option<u32>>::empty(),
            !r.reads_since_insert(),
    {
        let r = SovereignMap {
            mode: Mode::Recording,
            store_array_snaps: vec![Vec::new()],
            store_array_sort_proofs: vec![Vec::new()],
            access_pattern: Vec::new(),
            get_count_switch_tracker: Vec::new(),
            store_array_index: 0,
            insert_observed_get_count: 0,
            get_count: 0,
            original_input_array: Vec::new(),
            current_get_count: 0,
            read_keys: Ghost(Seq::empty()),
            answers: Ghost(Seq::empty()),
        };
        assert(snap_view(r.store_array_snaps@[0]@) =~= Seq::<EntryView>::empty());
        assert(r.snapshots() =~= seq![Seq::<EntryView>::empty()]);
        assert(r.sort_proofs() =~= seq![Seq::<usize>::empty()]);
        assert(r.inputs() =~= Seq::<EntryView>::empty());
        r
    }

    /// Whether a read may be issued now.
    pub fn can_get(&self) -> (r: bool)
        ensures
            r == self.get_allowed(),
    {
        match self.mode {
            Mode::Recording => self.get_count < usize::MAX,
            Mode::Replaying => self.current_get_count < self.get_count,
        }
    }

    /// Searches the current snapshot for `target_value`.
    pub fn bin_search(&self, target_value: &String) -> (r: IndexProof)
        requires
            self.well_formed(),
        ensures
            search_post(self.current(), target_value@, r),
    {
        assert(self.snapshots()[self.store_array_index as int] == snap_view(
            self.store_array_snaps@[self.store_array_index as int]@,
        ));
        search_snapshot(&self.store_array_snaps[self.store_array_index], target_value)
    }

    /// While recording, what a search of the current snapshot finds is the
    /// value inserted under the key.
    proof fn lemma_current_lookup(&self, key: Seq<char>, r: IndexProof)
        requires
            self.well_formed(),
            self.mode == Mode::Recording,
            search_post(self.current(), key, r),
        ensures
            proof_value(self.current(), r) == snapshot_lookup(self.inputs(), key),
    {
        let snaps = self.snapshots();
        let ins = self.inputs();
        let e = self.store_array_index as int;
        let last = snaps[e];
        assert(last == snaps.last());
        match r {
            IndexProof::Match(i) => {
                let k = self.sort_proofs()[e][i as int] as int;
                assert(ins[k] == last[i as int]);
                assert(exists|t: int| 0 <= t < ins.len() && ins[t].0 == key);
                let c = choose|t: int| 0 <= t < ins.len() && ins[t].0 == key;
                if c != k {
                    if c < k {
                        assert(ins[c].0 != ins[k].0);
                    } else {
                        assert(ins[k].0 != ins[c].0);
                    }
                }
            },
            IndexProof::Miss(_, hi) => {
                if exists|t: int| 0 <= t < ins.len() && ins[t].0 == key {
                    let t = choose|t: int| 0 <= t < ins.len() && ins[t].0 == key;
                    let j = choose|j: int| 0 <= j < last.len() && last[j] == ins[t];
                    crate::key_order::lemma_key_lt_irreflexive(key);
                    if j < hi {
                        assert(key_lt(last[j].0, key));
                    } else {
                        assert(key_lt(key, last[j].0));
                    }
                }
            },
        }
    }

    /// Reads `key`. While recording, the answer is the value inserted under
    /// `key`, and where the current snapshot holds `key` is logged. While
    /// replaying, the answer is what the next logged read found, whatever the key.
    pub fn get(&mut self, key: String) -> (r: Option<&u32>)
        requires
            old(self).well_formed(),
            old(self).get_allowed(),
        ensures
            final(self).well_formed(),
            final(self).mode() == old(self).mode(),
            final(self).snapshots() == old(self).snapshots(),
            final(self).sort_proofs() == old(self).sort_proofs(),
            final(self).switches() == old(self).switches(),
            final(self).inputs() == old(self).inputs(),
            old(self).mode() == Mode::Recording ==> {
                &&& opt_val(r) == snapshot_lookup(old(self).inputs(), key@)
                &&& final(self).get_count() == old(self).get_count() + 1
                &&& final(self).access() == old(self).access().push(final(self).access().last())
                &&& search_post(old(self).current(), key@, final(self).access().last())
                &&& final(self).read_keys() == old(self).read_keys().push(key@)
                &&& final(self).answers() == old(self).answers().push(opt_val(r))
                &&& final(self).epoch() == old(self).epoch()
                &&& final(self).reads_since_insert()
            },
            old(self).mode() == Mode::Replaying ==> {
                &&& opt_val(r) == replay_value(
                    old(self).snapshots(),
                    old(self).access(),
                    old(self).switches(),
                    old(self).replayed() as int,
                )
                &&& final(self).replayed() == old(self).replayed() + 1
                &&& final(self).get_count() == old(self).get_count()
                &&& final(self).access() == old(self).access()
                &&& final(self).epoch() == epoch_of(old(self).switches(), old(self).replayed() as int)
            },
    {
        match self.mode {
            Mode::Recording => {
                let ghost pre = *self;
                let idx = self.bin_search(&key);
                proof {
                    self.lemma_current_lookup(key@, idx);
                    let sw = self.switches();
                    if sw.len() > 0 {
                        assert(sw.last() <= self.get_count);
                    }
                    assert(epoch_of(sw, self.get_count as int) == self.store_array_index);
                }
                self.get_count = self.get_count + 1;
                self.access_pattern.push(idx);
                let ghost val = proof_value(pre.current(), idx);
                self.read_keys = Ghost(self.read_keys@.push(key@));
                self.answers = Ghost(self.answers@.push(val));
                proof {
                    let sw = self.switches();
                    let snaps = self.snapshots();
                    assert(snaps == pre.snapshots());
                    assert(self.sort_proofs() == pre.sort_proofs());
                    assert(self.inputs() == pre.inputs());
                    assert forall|p: int| 0 <= p < self.access().len() implies {
                        &&& search_post(snaps[epoch_of(sw, p) as int], self.read_keys@[p], #[trigger] self.access()[p])
                        &&& self.answers@[p] == replay_value(snaps, self.access(), sw, p)
                    } by {
                        if p < pre.get_count {
                            assert(self.access()[p] == pre.access()[p]);
                        }
                    }
                    assert(hints_valid(self.get_count(), self.snapshots(), self.access(), self.switches())) by {
                        assert forall|p: int| 0 <= p < self.get_count() implies match #[trigger] self.access()[p] {
                            IndexProof::Match(i) => i < snaps[epoch_of(sw, p) as int].len(),
                            IndexProof::Miss(_, _) => true,
                        } by {
                            if p < pre.get_count {
                                assert(self.access()[p] == pre.access()[p]);
                            }
                        }
                    }
                    assert(reads_aligned(snaps, sw, self.access(), self.read_keys@, self.answers@));
                }
                match idx {
                    IndexProof::Match(i) => Some(&self.store_array_snaps[self.store_array_index][i].1),
                    IndexProof::Miss(_, _) => None,
                }
            },
            Mode::Replaying => {
                let ghost pre = *self;
                proof {
                    assert forall|j: int| 0 <= j < self.store_array_index implies self.switches()[j]
                        < self.current_get_count + 1 by {
                        lemma_epoch_prefix(self.switches(), self.current_get_count - 1, j);
                    }
                    lemma_epoch_bound(self.switches(), self.current_get_count - 1);
                }
                self.current_get_count = self.current_get_count + 1;
                while self.store_array_index < self.get_count_switch_tracker.len()
                    && self.current_get_count > self.get_count_switch_tracker[self.store_array_index]
                    invariant
                        self.mode == pre.mode,
                        self.get_count == pre.get_count,
                        self.current_get_count == pre.current_get_count + 1,
                        self.store_array_snaps == pre.store_array_snaps,
                        self.store_array_sort_proofs == pre.store_array_sort_proofs,
                        self.access_pattern == pre.access_pattern,
                        self.get_count_switch_tracker == pre.get_count_switch_tracker,
                        self.original_input_array == pre.original_input_array,
                        self.insert_observed_get_count == pre.insert_observed_get_count,
                        self.read_keys == pre.read_keys,
                        self.answers == pre.answers,
                        strictly_ascending(self.switches()),
                        self.store_array_index <= self.switches().len(),
                        forall|j: int| 0 <= j < self.store_array_index ==> self.switches()[j] < self.current_get_count,
                    decreases self.switches().len() - self.store_array_index,
                {
                    self.store_array_index = self.store_array_index + 1;
                }
                proof {
                    lemma_epoch_exact(self.switches(), self.current_get_count - 1, self.store_array_index as int);
                }
                let sindex = self.access_pattern[self.current_get_count - 1];
                match sindex {
                    IndexProof::Match(idx) => Some(&self.store_array_snaps[self.store_array_index][idx].1),
                    IndexProof::Miss(_, _) => None,
                }
            },
        }
    }

    proof fn lemma_opened_epoch(&self, pre: SovereignMap, c: Vec<(String, u32)>, pc: Vec<usize>)
        requires
            pre.well_formed(),
            pre.mode == Mode::Recording,
            pre.get_count > pre.insert_observed_get_count,
            self.mode == Mode::Recording,
            self.get_count == pre.get_count,
            self.access_pattern@ == pre.access_pattern@,
            self.read_keys == pre.read_keys,
            self.answers == pre.answers,
            self.original_input_array@ == pre.original_input_array@,
            self.current_get_count == pre.current_get_count,
            self.store_array_snaps@ == pre.store_array_snaps@.push(c),
            snap_view(c@) == snap_view(pre.store_array_snaps@.last()@),
            self.store_array_sort_proofs@ == pre.store_array_sort_proofs@.push(pc),
            pc@ == pre.store_array_sort_proofs@.last()@,
            self.get_count_switch_tracker@ == pre.get_count_switch_tracker@.push(pre.get_count),
            self.insert_observed_get_count == pre.get_count,
            self.store_array_index == pre.store_array_index + 1,
        ensures
            self.well_formed(),
            self.snapshots() == pre.snapshots().push(pre.snapshots().last()),
            self.sort_proofs() == pre.sort_proofs().push(pre.sort_proofs().last()),
            self.inputs() == pre.inputs(),
    {
        let snaps = pre.snapshots();
        let snaps2 = self.snapshots();
        let sw = pre.switches();
        let sw2 = self.switches();
        assert(snaps2 =~= snaps.push(snaps.last()));
        assert(self.sort_proofs() =~= pre.sort_proofs().push(pre.sort_proofs().last()));
        assert(self.inputs() =~= pre.inputs());
        assert forall|p: int| 0 <= p < pre.get_count implies epoch_of(sw2, p) == epoch_of(sw, p)
            && epoch_of(sw, p) < snaps.len() && snaps2[epoch_of(sw2, p) as int] == snaps[epoch_of(sw, p) as int] by {
            lemma_epoch_push(sw, pre.get_count, p);
            lemma_epoch_bound(sw, p);
        }
        assert(strictly_ascending(sw2)) by {
            if sw.len() > 0 {
                assert(sw.last() < pre.get_count);
            }
        }
        assert(hints_valid(self.get_count(), snaps2, self.access(), sw2)) by {
            assert forall|e: int| 0 <= e < snaps2.len() implies keys_sorted(#[trigger] snaps2[e])
                && snaps2[e].len() <= MAX_SNAPSHOT_LEN by {
                if e == snaps.len() {
                    assert(snaps2[e] == snaps[e - 1]);
                }
            }
            assert forall|p: int| 0 <= p < self.get_count() implies match #[trigger] self.access()[p] {
                IndexProof::Match(i) => i < snaps2[epoch_of(sw2, p) as int].len(),
                IndexProof::Miss(_, _) => true,
            } by {
                assert(self.access()[p] == pre.access()[p]);
            }
        }
        assert(reads_aligned(snaps2, sw2, self.access(), self.read_keys@, self.answers@)) by {
            assert forall|p: int| 0 <= p < self.access().len() implies {
                &&& search_post(snaps2[epoch_of(sw2, p) as int], self.read_keys@[p], #[trigger] self.access()[p])
                &&& self.answers@[p] == replay_value(snaps2, self.access(), sw2, p)
            } by {
                assert(pre.access()[p] == self.access()[p]);
            }
        }
        let pr = pre.sort_proofs();
        let pr2 = self.sort_proofs();
        assert(sort_proofs_sound(snaps2, pr2, self.inputs())) by {
            assert forall|e: int| 0 <= e < snaps2.len() implies #[trigger] pr2[e].len() == snaps2[e].len() by {
                if e == snaps.len() {
                    assert(pr2[e] == pr[e - 1]);
                    assert(snaps2[e] == snaps[e - 1]);
                }
            }
            assert forall|e: int, j: int| 0 <= e < snaps2.len() && 0 <= j < snaps2[e].len() implies {
                &&& #[trigger] pr2[e][j] < self.inputs().len()
                &&& self.inputs()[pr2[e][j] as int] == snaps2[e][j]
            } by {
                if e == snaps.len() {
                    assert(pr2[e] == pr[e - 1]);
                    assert(snaps2[e] == snaps[e - 1]);
                    assert(pr[e - 1][j] < pre.inputs().len());
                } else {
                    assert(pr2[e] == pr[e]);
                    assert(pr[e][j] < pre.inputs().len());
                }
            }
        }
        assert(snaps2.last() == snaps.last());
    }

    proof fn lemma_inserted(
        &self,
        mid: SovereignMap,
        pos: int,
        e: EntryView,
        ns: Seq<EntryView>,
        np: Seq<usize>,
    )
        requires
            mid.well_formed(),
            mid.mode == Mode::Recording,
            mid.get_count == mid.insert_observed_get_count,
            0 <= pos <= mid.current().len(),
            forall|j: int| 0 <= j < pos ==> key_lt(#[trigger] mid.current()[j].0, e.0),
            forall|j: int| pos <= j < mid.current().len() ==> key_lt(e.0, #[trigger] mid.current()[j].0),
            mid.inputs().len() < MAX_SNAPSHOT_LEN,
            !has_key(mid.inputs(), e.0),
            self.mode == Mode::Recording,
            self.get_count == mid.get_count,
            self.insert_observed_get_count == mid.insert_observed_get_count,
            self.access_pattern@ == mid.access_pattern@,
            self.get_count_switch_tracker@ == mid.get_count_switch_tracker@,
            self.read_keys == mid.read_keys,
            self.answers == mid.answers,
            self.current_get_count == mid.current_get_count,
            self.store_array_index == mid.store_array_index,
            self.inputs() == mid.inputs().push(e),
            self.store_array_snaps.len() == mid.store_array_snaps.len(),
            self.store_array_sort_proofs.len() == mid.store_array_sort_proofs.len(),
            self.snapshots() == mid.snapshots().drop_last().push(ns),
            ns == mid.current().insert(pos, e),
            self.sort_proofs() == mid.sort_proofs().drop_last().push(np),
            np == mid.sort_proofs().last().insert(pos, mid.inputs().len() as usize),
        ensures
            self.well_formed(),
    {
        let snaps = mid.snapshots();
        let snaps2 = self.snapshots();
        let sw = mid.switches();
        let last = snaps.len() - 1;
        let cur = mid.current();
        let ins = mid.inputs();
        let ins2 = self.inputs();
        let n = ins.len();
        assert(cur == snaps[last]);
        assert(self.switches() == sw);
        assert(self.access() == mid.access());
        assert forall|p: int| 0 <= p < mid.get_count implies epoch_of(sw, p) < last && snaps2[epoch_of(sw, p) as int]
            == snaps[epoch_of(sw, p) as int] by {
            lemma_epoch_below_last(sw, p);
        }
        lemma_insert_sorted(cur, pos, e);
        assert(hints_valid(self.get_count(), snaps2, self.access(), sw)) by {
            assert forall|k: int| 0 <= k < snaps2.len() implies keys_sorted(#[trigger] snaps2[k])
                && snaps2[k].len() <= MAX_SNAPSHOT_LEN by {
                if k < last {
                    assert(snaps2[k] == snaps[k]);
                }
            }
            assert forall|p: int| 0 <= p < self.get_count() implies match #[trigger] self.access()[p] {
                IndexProof::Match(i) => i < snaps2[epoch_of(sw, p) as int].len(),
                IndexProof::Miss(_, _) => true,
            } by {
                assert(self.access()[p] == mid.access()[p]);
            }
        }
        assert(reads_aligned(snaps2, sw, self.access(), self.read_keys@, self.answers@)) by {
            assert forall|p: int| 0 <= p < self.access().len() implies {
                &&& search_post(snaps2[epoch_of(sw, p) as int], self.read_keys@[p], #[trigger] self.access()[p])
                &&& self.answers@[p] == replay_value(snaps2, self.access(), sw, p)
            } by {
                assert(mid.access()[p] == self.access()[p]);
            }
        }
        let pr = mid.sort_proofs();
        let pr2 = self.sort_proofs();
        assert(sort_proofs_sound(snaps2, pr2, ins2)) by {
            assert forall|k: int| 0 <= k < snaps2.len() implies #[trigger] pr2[k].len() == snaps2[k].len() by {
                if k < last {
                    assert(pr2[k] == pr[k]);
                    assert(snaps2[k] == snaps[k]);
                }
            }
            assert forall|k: int, j: int| 0 <= k < snaps2.len() && 0 <= j < snaps2[k].len() implies {
                &&& #[trigger] pr2[k][j] < ins2.len()
                &&& ins2[pr2[k][j] as int] == snaps2[k][j]
            } by {
                if k < last {
                    assert(pr2[k] == pr[k]);
                    assert(snaps2[k] == snaps[k]);
                    assert(pr[k][j] < n);
                } else if j < pos {
                    assert(pr[last][j] < n);
                } else if j > pos {
                    assert(pr[last][j - 1] < n);
                }
            }
        }
        assert forall|i: int| 0 <= i < ins2.len() implies has_entry(ns, ins2[i]) by {
                assert(mid.recording_inv());
                if i < n {
                    assert(has_entry(cur, ins[i]));
                    let j = choose|j: int| 0 <= j < cur.len() && cur[j] == ins[i];
                    if j < pos {
                        assert(ns[j] == ins2[i]);
                    } else {
                        assert(ns[j + 1] == ins2[i]);
                    }
                } else {
                    assert(ns[pos] == ins2[i]);
                }
        }
        assert(inputs_in(ns, ins2));
        assert(keys_distinct(ins2)) by {
            assert forall|i: int, j: int| 0 <= i < j < ins2.len() implies #[trigger] ins2[i].0 != #[trigger] ins2[j].0 by {
                if j == n {
                    assert(ins2[i] == ins[i]);
                }
            }
        }
        assert(snaps2.last() == ns);
    }

    /// Whether the entries of the maps agree: same mode, counters, hints and inputs.
    pub open spec fn same_state(&self, other: &SovereignMap) -> bool {
        &&& self.mode() == other.mode()
        &&& self.get_count() == other.get_count()
        &&& self.snapshots() == other.snapshots()
        &&& self.sort_proofs() == other.sort_proofs()
        &&& self.access() == other.access()
        &&& self.switches() == other.switches()
        &&& self.inputs() == other.inputs()
        &&& self.replayed() == other.replayed()
        &&& self.epoch() == other.epoch()
        &&& self.read_keys() == other.read_keys()
        &&& self.answers() == other.answers()
        &&& self.reads_since_insert() == other.reads_since_insert()
    }

    /// Inserts `val` under `key`. While recording, a key inserted before is
    /// refused, and so is an entry beyond `MAX_SNAPSHOT_LEN`; otherwise, if
    /// reads happened since the last insert, a new epoch opens with a copy of
    /// the current snapshot, and the entry goes into the current snapshot at
    /// its sorted place. While replaying, the entry is only appended to the
    /// inputs.
    pub fn insert(&mut self, key: String, val: u32) -> (r: Result<(), MapError>)
        requires
            old(self).well_formed(),
        ensures
            final(self).well_formed(),
            final(self).mode() == old(self).mode(),
            final(self).get_count() == old(self).get_count(),
            final(self).access() == old(self).access(),
            final(self).read_keys() == old(self).read_keys(),
            final(self).answers() == old(self).answers(),
            old(self).mode() == Mode::Replaying ==> {
                &&& r is Ok
                &&& final(self).inputs() == old(self).inputs().push((key@, val))
                &&& final(self).snapshots() == old(self).snapshots()
                &&& final(self).sort_proofs() == old(self).sort_proofs()
                &&& final(self).switches() == old(self).switches()
                &&& final(self).replayed() == old(self).replayed()
                &&& final(self).epoch() == old(self).epoch()
            },
            old(self).mode() == Mode::Recording ==> {
                &&& (r == Err::<(), MapError>(MapError::DuplicateKey)) == has_key(old(self).inputs(), key@)
                &&& (r == Err::<(), MapError>(MapError::SnapshotFull)) == (!has_key(old(self).inputs(), key@)
                    && old(self).inputs().len() >= MAX_SNAPSHOT_LEN)
                &&& r is Ok == (!has_key(old(self).inputs(), key@) && old(self).inputs().len() < MAX_SNAPSHOT_LEN)
                &&& r is Err ==> final(self).same_state(old(self))
                &&& r is Ok ==> {
                    &&& final(self).inputs() == old(self).inputs().push((key@, val))
                    &&& !final(self).reads_since_insert()
                    &&& final(self).epoch() + 1 == final(self).snapshots().len()
                    &&& if old(self).reads_since_insert() {
                        &&& final(self).switches() == old(self).switches().push(old(self).get_count() as usize)
                        &&& final(self).snapshots().drop_last() == old(self).snapshots()
                        &&& final(self).sort_proofs().drop_last() == old(self).sort_proofs()
                    } else {
                        &&& final(self).switches() == old(self).switches()
                        &&& final(self).snapshots().drop_last() == old(self).snapshots().drop_last()
                        &&& final(self).sort_proofs().drop_last() == old(self).sort_proofs().drop_last()
                    }
                    &&& final(self).sort_proofs().len() == final(self).snapshots().len()
                    &&& exists|pos: int|
                        0 <= pos <= old(self).current().len() && final(self).current()
                            == old(self).current().insert(pos, (key@, val)) && final(self).sort_proofs().last()
                            == old(self).sort_proofs()[old(self).epoch() as int].insert(
                            pos,
                            old(self).inputs().len() as usize,
                        )
                }
            },
    {
        match self.mode {
            Mode::Replaying => {
                self.original_input_array.push((key, val));
                proof {
                    assert(self.inputs() =~= old(self).inputs().push((key@, val)));
                }
                Ok(())
            },
            Mode::Recording => {
                let ghost pre = *self;
                let idx = self.bin_search(&key);
                proof {
                    self.lemma_current_lookup(key@, idx);
                }
                let pos: usize = match idx {
                    IndexProof::Match(_) => {
                        return Err(MapError::DuplicateKey);
                    },
                    IndexProof::Miss(_, hi) => hi as usize,
                };
                if self.original_input_array.len() >= MAX_SNAPSHOT_LEN {
                    return Err(MapError::SnapshotFull);
                }
                if self.get_count > self.insert_observed_get_count {
                    let snap = copy_snapshot(&self.store_array_snaps[self.store_array_index]);
                    let proof_copy = copy_indices(&self.store_array_sort_proofs[self.store_array_index]);
                    let ghost c = snap;
                    let ghost pc = proof_copy;
                    self.store_array_snaps.push(snap);
                    self.store_array_sort_proofs.push(proof_copy);
                    self.get_count_switch_tracker.push(self.get_count);
                    self.insert_observed_get_count = self.get_count;
                    self.store_array_index = self.store_array_index + 1;
                    proof {
                        self.lemma_opened_epoch(pre, c, pc);
                    }
                }
                let ghost mid = *self;
                let n = self.original_input_array.len();
                self.original_input_array.push((key.clone(), val));
                let ghost kv = key@;
                let mut snap = self.store_array_snaps.pop().unwrap();
                let ghost old_snap = snap;
                snap.insert(pos, (key, val));
                let ghost ns = snap;
                self.store_array_snaps.push(snap);
                let mut proof_vec = self.store_array_sort_proofs.pop().unwrap();
                let ghost old_proof = proof_vec;
                proof {
                    assert(old_proof == mid.store_array_sort_proofs@.last());
                    assert(mid.sort_proofs().last() == old_proof@);
                    assert(mid.snapshots().last() == snap_view(old_snap@));
                }
                proof_vec.insert(pos, n);
                let ghost np = proof_vec;
                self.store_array_sort_proofs.push(proof_vec);
                proof {
                    assert(old_snap == mid.store_array_snaps@.last());
                    assert(self.store_array_snaps@ =~= mid.store_array_snaps@.drop_last().push(ns));
                    assert(self.store_array_sort_proofs@ =~= mid.store_array_sort_proofs@.drop_last().push(np));
                    assert(snap_view(ns@) =~= snap_view(old_snap@).insert(pos as int, (kv, val)));
                    assert(mid.snapshots().last() == snap_view(old_snap@));
                    assert(self.inputs() =~= mid.inputs().push((kv, val)));
                    assert(self.snapshots() =~= mid.snapshots().drop_last().push(snap_view(ns@)));
                    assert(self.sort_proofs() =~= mid.sort_proofs().drop_last().push(np@));
                    self.lemma_inserted(mid, pos as int, (kv, val), snap_view(ns@), np@);
                    assert(mid.sort_proofs().last() == pre.sort_proofs()[pre.epoch() as int]);
                    assert(self.sort_proofs().last() == np@);
                    assert(self.current() == mid.current().insert(pos as int, (kv, val)));
                }
                Ok(())
            },
        }
    }

    /// Encodes the hints: the read count, the snapshots, the sort proofs, the
    /// access log and the epoch-switch log. The bytes depend on those alone.
    pub fn get_hints(&self) -> (r: Vec<u8>)
        ensures
            r@ == bincode_hints(self.wire()),
    {
        let wire_access = access_to_wire(&self.access_pattern);
        let encoded = encode_hints(
            self.get_count,
            &self.store_array_snaps,
            &self.store_array_sort_proofs,
            &wire_access,
            &self.get_count_switch_tracker,
        );
        match encoded {
            Ok(b) => b,
            Err(_) => {
                assert(false);
                Vec::new()
            },
        }
    }

    /// Imports hints and switches the map to replaying, from the first read
    /// and the first snapshot. Bytes that do not decode, or hints that a
    /// replay cannot run on, are refused and leave the map as it was. Hints
    /// that a replay can run on are imported exactly as they were encoded.
    pub fn set_hints(&mut self, hints: &[u8]) -> (r: Result<(), MapError>)
        requires
            old(self).well_formed(),
        ensures
            final(self).well_formed(),
            r is Err ==> final(self).same_state(old(self)),
            r is Err ==> r == Err::<(), MapError>(MapError::HintsUndecodable) || r == Err::<(), MapError>(
                MapError::HintsInconsistent,
            ),
            r is Ok ==> {
                &&& final(self).mode() == Mode::Replaying
                &&& final(self).replayed() == 0
                &&& final(self).epoch() == 0
                &&& final(self).inputs() == old(self).inputs()
                &&& wire_valid(final(self).wire())
            },
            forall|h: HintsWire|
                wire_valid(h) && hints@ == bincode_hints(h) ==> r is Ok && final(self).wire() == h,
    {
        let decoded = decode_hints(hints);
        match decoded {
            Err(_) => Err(MapError::HintsUndecodable),
            Ok(v) => {
                let (get_count, snaps, proofs, wire_access, switches) = v;
                let access = access_from_wire(&wire_access);
                if !check_hints(get_count, &snaps, proofs.len(), &access, &switches) {
                    return Err(MapError::HintsInconsistent);
                }
                self.mode = Mode::Replaying;
                self.get_count = get_count;
                self.store_array_snaps = snaps;
                self.store_array_sort_proofs = proofs;
                self.access_pattern = access;
                self.get_count_switch_tracker = switches;
                self.current_get_count = 0;
                self.store_array_index = 0;
                proof {
                    let sw = self.switches();
                    if sw.len() > 0 {
                        lemma_epoch_exact(sw, -1, 0);
                    }
                    assert(self.access().map_values(|p: IndexProof| proof_to_wire(p)) =~= wire_access@);
                    assert(self.sort_proofs().len() == self.snapshots().len());
                }
                Ok(())
            },
        }
    }

    /// A map replaying the hints of a recording map answers each read as the
    /// recording map answered the read at the same position. Read `p` of the
    /// replay returns `replay_value` at `p` (the contract of `get`), which is
    /// the answer the recording gave to its read `p`; so the same reads, in
    /// the same order, get the same answers in both modes.
    pub proof fn lemma_replay_reproduces_reads(rec: SovereignMap, rep: SovereignMap, p: int)
        requires
            rec.well_formed(),
            rec.mode() == Mode::Recording,
            rep.well_formed(),
            rep.wire() == rec.wire(),
            0 <= p < rec.get_count(),
        ensures
            replay_value(rep.snapshots(), rep.access(), rep.switches(), p) == rec.answers()[p],
    {
        assert(rep.access().len() == rec.access().len());
        assert forall|q: int| 0 <= q < rep.access().len() implies rep.access()[q] == rec.access()[q] by {
            assert(rep.wire().3[q] == rec.wire().3[q]);
            assert(rep.wire().3[q] == proof_to_wire(rep.access()[q]));
            assert(rec.wire().3[q] == proof_to_wire(rec.access()[q]));
            assert(wire_to_proof(proof_to_wire(rep.access()[q])) == rep.access()[q]);
            assert(wire_to_proof(proof_to_wire(rec.access()[q])) == rec.access()[q]);
        }
        assert(rep.access() =~= rec.access());
        assert(rec.access().len() == rec.get_count());
    }

    /// The hints of a well-formed map are hints a replay can run on: encoded
    /// by `get_hints` and decoded by `set_hints`, they come back unchanged.
    pub proof fn lemma_hints_importable(m: SovereignMap)
        requires
            m.well_formed(),
        ensures
            wire_valid(m.wire()),
    {
        let w = m.wire();
        assert(w.3.map_values(|x: Result<usize, (i32, i32)>| wire_to_proof(x)) =~= m.access());
    }

    /// Every snapshot in the hints ascends strictly by key.
    pub proof fn lemma_snapshots_sorted(m: SovereignMap)
        requires
            m.well_formed(),
        ensures
            forall|e: int| 0 <= e < m.snapshots().len() ==> keys_sorted(#[trigger] m.snapshots()[e]),
    {
    }

    /// The epoch-switch log ascends strictly and never exceeds the read count;
    /// while recording, every switch follows at least one read, and the last
    /// switch is the read count that the last epoch opened at.
    pub proof fn lemma_switches_monotone(m: SovereignMap)
        requires
            m.well_formed(),
        ensures
            strictly_ascending(m.switches()),
            forall|j: int| 0 <= j < m.switches().len() ==> #[trigger] m.switches()[j] <= m.get_count(),
            m.get_count() <= usize::MAX,
            m.switches().len() + 1 == m.snapshots().len(),
            m.mode() == Mode::Recording ==> {
                &&& forall|j: int| 0 <= j < m.switches().len() ==> 1 <= #[trigger] m.switches()[j]
                &&& m.epoch() == m.switches().len()
                &&& m.reads_since_insert() == (m.get_count() > (if m.switches().len() == 0 {
                    0
                } else {
                    m.switches().last() as nat
                }))
            },
    {
    }

    /// What holds of every recording map: the current snapshot is the last
    /// one and holds exactly the inputs, whose keys are distinct; each sort
    /// proof is as long as its snapshot, points each entry to the input that
    /// holds it, and names no input twice; one key and one answer is kept per
    /// read, and every read is aligned with its epoch.
    pub proof fn lemma_recording_state(m: SovereignMap)
        requires
            m.well_formed(),
            m.mode() == Mode::Recording,
        ensures
            m.epoch() + 1 == m.snapshots().len(),
            m.current() == m.snapshots().last(),
            m.current().len() == m.inputs().len(),
            inputs_in(m.current(), m.inputs()),
            keys_distinct(m.inputs()),
            sort_proofs_sound(m.snapshots(), m.sort_proofs(), m.inputs()),
            forall|e: int, j: int, k: int|
                0 <= e < m.sort_proofs().len() && 0 <= j < k < m.sort_proofs()[e].len()
                    ==> #[trigger] m.sort_proofs()[e][j] != #[trigger] m.sort_proofs()[e][k],
            m.read_keys().len() == m.get_count(),
            m.answers().len() == m.get_count(),
            reads_aligned(m.snapshots(), m.switches(), m.access(), m.read_keys(), m.answers()),
            m.replayed() == 0,
    {
        let snaps = m.snapshots();
        let pr = m.sort_proofs();
        assert forall|e: int, j: int, k: int|
            0 <= e < pr.len() && 0 <= j < k < pr[e].len() implies #[trigger] pr[e][j] != #[trigger] pr[e][k] by {
            assert(keys_sorted(snaps[e]));
            assert(key_lt(snaps[e][j].0, snaps[e][k].0));
            if pr[e][j] == pr[e][k] {
                crate::key_order::lemma_key_lt_irreflexive(snaps[e][j].0);
            }
        }
    }

    /// Each recorded read lies inside its epoch (after the switch that opened
    /// it, at or before the one that closed it, counting reads from 1), and its
    /// access entry is what a search for its key finds in that epoch's snapshot.
    pub proof fn lemma_reads_aligned(m: SovereignMap, p: int)
        requires
            m.well_formed(),
            m.mode() == Mode::Recording,
            0 <= p < m.get_count(),
        ensures
            ({
                let sw = m.switches();
                let e = epoch_of(sw, p) as int;
                &&& e < m.snapshots().len()
                &&& e == 0 || sw[e - 1] < p + 1
                &&& e == sw.len() || p + 1 <= sw[e]
                &&& search_post(m.snapshots()[e], m.read_keys()[p], m.access()[p])
            }),
    {
        let sw = m.switches();
        lemma_epoch_bound(sw, p);
        let e = epoch_of(sw, p) as int;
        if e > 0 {
            lemma_epoch_prefix(sw, p, e - 1);
        }
        if e < sw.len() {
            lemma_epoch_suffix(sw, p);
        }
        assert(m.access().len() == m.get_count());
    }

    /// Two recorded reads of the same key against the same snapshot logged
    /// the same access entry and got the same answer.
    pub proof fn lemma_repeated_read(m: SovereignMap, p: int, q: int)
        requires
            m.well_formed(),
            m.mode() == Mode::Recording,
            0 <= p < m.get_count(),
            0 <= q < m.get_count(),
            m.read_keys()[p] == m.read_keys()[q],
            epoch_of(m.switches(), p) == epoch_of(m.switches(), q),
        ensures
            m.access()[p] == m.access()[q],
            m.answers()[p] == m.answers()[q],
    {
        let sw = m.switches();
        lemma_epoch_bound(sw, p);
        assert(m.access().len() == m.get_count());
        let s = m.snapshots()[epoch_of(sw, p) as int];
        lemma_search_determined(s, m.read_keys()[p], m.access()[p], m.access()[q]);
    }

    /// The mode the map is in.
    pub fn current_mode(&self) -> (r: Mode)
        ensures
            r == self.mode(),
    {
        self.mode
    }

    /// Number of reads recorded, or expected by a replay.
    pub fn read_count(&self) -> (r: usize)
        ensures
            r == self.get_count(),
    {
        self.get_count
    }

    /// Number of snapshots, one per insert-epoch.
    pub fn snapshot_count(&self) -> (r: usize)
        ensures
            r == self.snapshots().len(),
    {
        self.store_array_snaps.len()
    }

    /// The snapshot of epoch `e`.
    pub fn snapshot(&self, e: usize) -> (r: &Vec<(String, u32)>)
        requires
            e < self.snapshots().len(),
        ensures
            snap_view(r@) == self.snapshots()[e as int],
    {
        &self.store_array_snaps[e]
    }

    /// The sort proof of epoch `e`.
    pub fn sort_proof(&self, e: usize) -> (r: &Vec<usize>)
        requires
            e < self.sort_proofs().len(),
        ensures
            r@ == self.sort_proofs()[e as int],
    {
        &self.store_array_sort_proofs[e]
    }

    /// The access log: one entry per read.
    pub fn access_log(&self) -> (r: &Vec<IndexProof>)
        ensures
            r@ == self.access(),
    {
        &self.access_pattern
    }

    /// The epoch-switch log.
    pub fn switch_log(&self) -> (r: &Vec<usize>)
        ensures
            r@ == self.switches(),
    {
        &self.get_count_switch_tracker
    }

    /// Every inserted entry, in insertion order.
    pub fn input_entries(&self) -> (r: &Vec<(String, u32)>)
        ensures
            snap_view(r@) == self.inputs(),
    {
        &self.original_input_array
    }
}

} // verus!
