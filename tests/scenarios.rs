use sovereign_map::{
    compare_keys, search_snapshot, IndexProof, KeyOrder, MapError, Mode, SovereignMap,
};

fn key(x: &str) -> String {
    String::from(x)
}

enum Op {
    Put(&'static str, u32),
    Get(&'static str),
}

/// Runs the operations and returns the answers of the reads.
fn run(sm: &mut SovereignMap, ops: &[Op]) -> Vec<Option<u32>> {
    let mut answers = Vec::new();
    for op in ops {
        match op {
            Op::Put(k, v) => sm.insert(key(k), *v).unwrap(),
            Op::Get(k) => {
                assert!(sm.can_get());
                answers.push(sm.get(key(k)).copied());
            }
        }
    }
    answers
}

fn replaying(rec: &SovereignMap) -> SovereignMap {
    let mut z = SovereignMap::new();
    z.set_hints(&rec.get_hints()).unwrap();
    z
}

fn minimal_ops() -> Vec<Op> {
    vec![Op::Put("a", 1), Op::Put("b", 2), Op::Get("a"), Op::Get("c"), Op::Get("b")]
}

fn split_ops() -> Vec<Op> {
    vec![Op::Put("a", 1), Op::Get("a"), Op::Put("b", 2), Op::Get("b"), Op::Get("a")]
}

fn vector_ops() -> Vec<Op> {
    vec![
        Op::Put("rohan", 10),
        Op::Put("philippe", 20),
        Op::Get("rohan"),
        Op::Put("kevin", 30),
        Op::Get("carthage"),
        Op::Get("gilgamesh"),
        Op::Get("rohan"),
        Op::Get("rohan"),
        Op::Get("rohan"),
        Op::Get("philippe"),
        Op::Get("plato"),
        Op::Put("plato", 40),
        Op::Get("plato"),
        Op::Get("plato"),
        Op::Get("plato"),
        Op::Get("plato"),
        Op::Get("carthage"),
        Op::Get("pluto"),
        Op::Put("carthage", 50),
        Op::Put("gilgamesh", 60),
        Op::Get("carthage"),
        Op::Get("gilgamesh"),
        Op::Get("pluto"),
        Op::Put("pluto", 70),
        Op::Get("rohan"),
        Op::Get("philippe"),
        Op::Get("pluto"),
    ]
}

#[test]
fn minimal_scenario() {
    let mut sm = SovereignMap::new();
    assert_eq!(run(&mut sm, &minimal_ops()), vec![Some(1), None, Some(2)]);
    assert_eq!(sm.snapshot_count(), 1);
    assert!(sm.switch_log().is_empty());
}

#[test]
fn epoch_split_scenario() {
    let mut sm = SovereignMap::new();
    assert_eq!(run(&mut sm, &split_ops()), vec![Some(1), Some(2), Some(1)]);
    assert_eq!(sm.snapshot_count(), 2);
    assert_eq!(sm.switch_log(), &vec![1]);
}

#[test]
fn vector_scenario_answers_and_epochs() {
    let mut sm = SovereignMap::new();
    let answers = run(&mut sm, &vector_ops());
    let expected = vec![
        Some(10), None, None, Some(10), Some(10), Some(10), Some(20), None, Some(40), Some(40),
        Some(40), Some(40), None, None, Some(50), Some(60), None, Some(10), Some(20), Some(70),
    ];
    assert_eq!(answers, expected);
    assert_eq!(sm.switch_log().len(), 4);
    assert_eq!(sm.switch_log(), &vec![1, 8, 14, 17]);
    assert_eq!(sm.snapshot_count(), 5);
    assert_eq!(sm.read_count(), 20);
    assert_eq!(sm.access_log().len(), 20);
}

#[test]
fn miss_before_first_key() {
    let mut sm = SovereignMap::new();
    sm.insert(key("m"), 1).unwrap();
    assert_eq!(sm.get(key("a")), None);
    assert_eq!(sm.access_log()[0], IndexProof::Miss(-1, 0));
}

#[test]
fn get_before_any_insert_misses() {
    let mut sm = SovereignMap::new();
    assert_eq!(sm.get(key("a")), None);
    assert_eq!(sm.access_log()[0], IndexProof::Miss(-1, 0));
    sm.insert(key("a"), 5).unwrap();
    assert_eq!(sm.get(key("a")), Some(&5));
    assert_eq!(sm.switch_log(), &vec![1]);
    let mut z = replaying(&sm);
    assert_eq!(z.get(key("a")), None);
    assert_eq!(z.get(key("a")), Some(&5));
}

#[test]
fn replay_overrun_is_refused() {
    let mut sm = SovereignMap::new();
    run(&mut sm, &[Op::Put("x", 1), Op::Get("x"), Op::Get("y")]);
    let mut z = replaying(&sm);
    assert_eq!(z.current_mode(), Mode::Replaying);
    assert!(z.can_get());
    assert_eq!(z.get(key("x")), Some(&1));
    assert!(z.can_get());
    assert_eq!(z.get(key("y")), None);
    assert!(!z.can_get());
}

#[test]
fn replay_reproduces_every_answer() {
    for ops in [minimal_ops(), split_ops(), vector_ops()] {
        let mut rec = SovereignMap::new();
        let recorded = run(&mut rec, &ops);
        let mut rep = replaying(&rec);
        assert_eq!(run(&mut rep, &ops), recorded);
    }
}

#[test]
fn round_trip_exports_identical_bytes() {
    for ops in [minimal_ops(), split_ops(), vector_ops()] {
        let mut rec = SovereignMap::new();
        run(&mut rec, &ops);
        let bytes = rec.get_hints();
        let mut rep = SovereignMap::new();
        rep.set_hints(&bytes).unwrap();
        assert_eq!(rep.get_hints(), bytes);
        run(&mut rep, &ops);
        assert_eq!(rep.get_hints(), bytes);
    }
}

#[test]
fn exported_snapshots_are_sorted() {
    let mut sm = SovereignMap::new();
    run(&mut sm, &vector_ops());
    for e in 0..sm.snapshot_count() {
        let snap = sm.snapshot(e);
        for w in snap.windows(2) {
            assert!(w[0].0 < w[1].0);
        }
    }
    let keys: Vec<&str> = sm.snapshot(4).iter().map(|e| e.0.as_str()).collect();
    assert_eq!(keys, vec!["carthage", "gilgamesh", "kevin", "philippe", "plato", "pluto", "rohan"]);
}

#[test]
fn switch_log_ascends_within_reads() {
    let mut sm = SovereignMap::new();
    run(&mut sm, &vector_ops());
    let log = sm.switch_log().clone();
    for w in log.windows(2) {
        assert!(w[0] < w[1]);
    }
    assert!(log.iter().all(|&s| s <= sm.read_count()));
}

#[test]
fn access_entries_follow_their_epoch() {
    let mut sm = SovereignMap::new();
    run(&mut sm, &split_ops());
    assert_eq!(
        sm.access_log(),
        &vec![IndexProof::Match(0), IndexProof::Match(1), IndexProof::Match(0)]
    );
    assert_eq!(sm.snapshot(0).len(), 1);
    assert_eq!(sm.snapshot(1).len(), 2);
}

#[test]
fn repeated_get_logs_identical_entries() {
    let mut sm = SovereignMap::new();
    run(&mut sm, &[Op::Put("k", 7), Op::Put("q", 8)]);
    let first = sm.get(key("k")).copied();
    let second = sm.get(key("k")).copied();
    assert_eq!(first, Some(7));
    assert_eq!(first, second);
    assert_eq!(sm.access_log()[0], sm.access_log()[1]);
    let m1 = sm.get(key("m")).copied();
    let m2 = sm.get(key("m")).copied();
    assert_eq!(m1, None);
    assert_eq!(m1, m2);
    assert_eq!(sm.access_log()[2], IndexProof::Miss(0, 1));
    assert_eq!(sm.access_log()[2], sm.access_log()[3]);
}

#[test]
fn search_matches_or_brackets() {
    let snap: Vec<(String, u32)> = vec![(key("b"), 1), (key("d"), 2), (key("f"), 3)];
    assert_eq!(search_snapshot(&snap, &key("a")), IndexProof::Miss(-1, 0));
    assert_eq!(search_snapshot(&snap, &key("b")), IndexProof::Match(0));
    assert_eq!(search_snapshot(&snap, &key("c")), IndexProof::Miss(0, 1));
    assert_eq!(search_snapshot(&snap, &key("d")), IndexProof::Match(1));
    assert_eq!(search_snapshot(&snap, &key("e")), IndexProof::Miss(1, 2));
    assert_eq!(search_snapshot(&snap, &key("f")), IndexProof::Match(2));
    assert_eq!(search_snapshot(&snap, &key("g")), IndexProof::Miss(2, 3));
    assert_eq!(search_snapshot(&Vec::new(), &key("a")), IndexProof::Miss(-1, 0));
}

#[test]
fn duplicate_key_is_refused() {
    let mut sm = SovereignMap::new();
    sm.insert(key("a"), 1).unwrap();
    assert_eq!(sm.insert(key("a"), 2), Err(MapError::DuplicateKey));
    assert_eq!(sm.get(key("a")), Some(&1));
    assert_eq!(sm.input_entries().len(), 1);
}

#[test]
fn undecodable_hints_are_refused() {
    let mut sm = SovereignMap::new();
    assert_eq!(sm.set_hints(&[1, 2, 3]), Err(MapError::HintsUndecodable));
    assert_eq!(sm.current_mode(), Mode::Recording);
}

#[test]
fn inconsistent_hints_are_refused() {
    let no_snapshots = bincode::serialize(&(
        1usize,
        Vec::<Vec<(String, u32)>>::new(),
        Vec::<Vec<usize>>::new(),
        vec![Ok::<usize, (i32, i32)>(0)],
        Vec::<usize>::new(),
    ))
    .unwrap();
    let mut sm = SovereignMap::new();
    assert_eq!(sm.set_hints(&no_snapshots), Err(MapError::HintsInconsistent));
    let match_out_of_range = bincode::serialize(&(
        1usize,
        vec![vec![(key("a"), 1u32)]],
        vec![vec![0usize]],
        vec![Ok::<usize, (i32, i32)>(1)],
        Vec::<usize>::new(),
    ))
    .unwrap();
    assert_eq!(sm.set_hints(&match_out_of_range), Err(MapError::HintsInconsistent));
    let unsorted = bincode::serialize(&(
        0usize,
        vec![vec![(key("b"), 1u32), (key("a"), 2u32)]],
        vec![vec![0usize, 1]],
        Vec::<Result<usize, (i32, i32)>>::new(),
        Vec::<usize>::new(),
    ))
    .unwrap();
    assert_eq!(sm.set_hints(&unsorted), Err(MapError::HintsInconsistent));
    assert_eq!(sm.current_mode(), Mode::Recording);
}

#[test]
fn keys_compare_by_code_point() {
    assert_eq!(compare_keys(&key("abc"), &key("abd")), KeyOrder::Less);
    assert_eq!(compare_keys(&key("ab"), &key("abc")), KeyOrder::Less);
    assert_eq!(compare_keys(&key("abc"), &key("abc")), KeyOrder::Equal);
    assert_eq!(compare_keys(&key("\u{e9}"), &key("z")), KeyOrder::Greater);
    assert_eq!(compare_keys(&key(""), &key("a")), KeyOrder::Less);
}

#[test]
fn sort_proofs_point_into_inputs() {
    let mut sm = SovereignMap::new();
    run(&mut sm, &vector_ops()[..4]);
    assert_eq!(sm.sort_proof(0), &vec![1, 0]);
    assert_eq!(sm.sort_proof(1), &vec![2, 1, 0]);
}

#[test]
fn replay_insert_only_appends_inputs() {
    let mut rec = SovereignMap::new();
    run(&mut rec, &split_ops());
    let mut rep = replaying(&rec);
    rep.insert(key("a"), 1).unwrap();
    assert_eq!(rep.input_entries(), &vec![(key("a"), 1)]);
    assert_eq!(rep.snapshot_count(), 2);
    assert_eq!(rep.read_count(), 3);
}

#[test]
fn sort_proofs_after_epoch_split() {
    let mut sm = SovereignMap::new();
    run(&mut sm, &[Op::Put("a", 1), Op::Get("a"), Op::Put("b", 2)]);
    assert_eq!(sm.switch_log(), &vec![1]);
    assert_eq!(sm.snapshot_count(), 2);
    assert_eq!(sm.sort_proof(0), &vec![0]);
    assert_eq!(sm.sort_proof(1), &vec![0, 1]);
}

#[test]
fn sort_proof_of_last_vector_epoch() {
    let mut sm = SovereignMap::new();
    run(&mut sm, &vector_ops());
    assert_eq!(sm.sort_proof(4), &vec![4, 5, 2, 1, 3, 6, 0]);
}

#[test]
fn export_depends_on_hint_fields_only() {
    let mut a = SovereignMap::new();
    run(&mut a, &split_ops());
    let mut b = replaying(&a);
    b.insert(key("zzz"), 9).unwrap();
    assert_eq!(a.get_hints(), b.get_hints());
}
