use store_gc::engine::{keys_of_objects, ClosureEngine};
use store_gc::record::{PathInfo, RecordStore};
use store_gc::report::{
    deletion_lines, index_file_line, origin_file_line, progress_due, summarize, PROGRESS_STEP,
};
use store_gc::retention::select_roots;
use store_gc::sweep::{assemble, plan_sweep, GcError, Sweep};

fn item(path: &str, references: &[&str], time: u64, size: u64, url: &str) -> PathInfo {
    PathInfo {
        path: path.to_string(),
        references: references.iter().map(|r| r.to_string()).collect(),
        registrationTime: time,
        downloadSize: size,
        url: url.to_string(),
    }
}

fn keys(store: &RecordStore, objects: &Vec<usize>) -> Vec<String> {
    keys_of_objects(store, objects)
}

fn origins(store: &RecordStore, sweep: &Sweep) -> Vec<String> {
    sweep.delete_origins.iter().map(|k| store.origin(*k).clone()).collect()
}

#[test]
fn chain_with_young_head_is_kept_whole() {
    let listing = vec![
        item("A", &["B"], 1000, 10, "nar/a"),
        item("B", &["C"], 1, 20, "nar/b"),
        item("C", &[], 1, 30, "nar/c"),
    ];
    let store = RecordStore::build(&listing);
    let sweep = plan_sweep(&store, 500);
    assert_eq!(keys(&store, &sweep.keep), vec!["A", "B", "C"]);
    assert_eq!(sweep.delete, Vec::<usize>::new());
    assert_eq!(sweep.delete_origins, Vec::<usize>::new());
    assert_eq!(sweep.reclaimable, 0);
}

#[test]
fn mutual_cycle_without_root_is_deleted() {
    let listing = vec![item("A", &["B"], 1, 10, "nar/a"), item("B", &["A"], 2, 20, "nar/b")];
    let store = RecordStore::build(&listing);
    let sweep = plan_sweep(&store, 500);
    assert_eq!(sweep.keep, Vec::<usize>::new());
    assert_eq!(keys(&store, &sweep.delete), vec!["A", "B"]);
    assert_eq!(origins(&store, &sweep), vec!["nar/a", "nar/b"]);
    assert_eq!(sweep.reclaimable, 30);
}

#[test]
fn shared_origin_stays_while_one_consumer_is_kept() {
    let listing = vec![
        item("E", &[], 1000, 100, "U"),
        item("F", &[], 1, 100, "U"),
        item("G", &[], 1, 5, "V"),
    ];
    let store = RecordStore::build(&listing);
    let sweep = plan_sweep(&store, 500);
    assert_eq!(keys(&store, &sweep.keep), vec!["E"]);
    assert_eq!(keys(&store, &sweep.delete), vec!["F", "G"]);
    assert_eq!(origins(&store, &sweep), vec!["V"]);
    assert_eq!(sweep.reclaimable, 5);
}

#[test]
fn shared_origin_is_counted_once() {
    let listing = vec![
        item("E", &[], 1, 100, "U"),
        item("F", &[], 1, 250, "U"),
        item("G", &[], 1, 5, "V"),
    ];
    let store = RecordStore::build(&listing);
    let sweep = plan_sweep(&store, 500);
    assert_eq!(origins(&store, &sweep), vec!["U", "V"]);
    assert_eq!(sweep.reclaimable, 255);
}

#[test]
fn reclaimable_does_not_wrap() {
    let listing = vec![item("E", &[], 1, u64::MAX, "U"), item("F", &[], 1, u64::MAX, "V")];
    let store = RecordStore::build(&listing);
    let sweep = plan_sweep(&store, 500);
    assert_eq!(sweep.reclaimable, 2 * (u64::MAX as u128));
}

#[test]
fn keep_and_delete_split_the_store() {
    let listing = vec![
        item("a", &["b", "x"], 900, 1, "1"),
        item("b", &["c"], 10, 2, "2"),
        item("c", &["b"], 10, 4, "3"),
        item("d", &["c", "d"], 10, 8, "4"),
        item("e", &["a"], 10, 16, "1"),
        item("f", &[], 901, 32, "5"),
    ];
    let store = RecordStore::build(&listing);
    let roots = select_roots(&store, 500);
    assert_eq!(roots, vec![0, 5]);
    let map = ClosureEngine::new(&store).compute_all();
    let sweep = assemble(&store, &roots, &map).unwrap();
    assert_eq!(sweep.keep, vec![0, 1, 2, 5]);
    assert_eq!(sweep.delete, vec![3, 4]);
    for root in &roots {
        assert!(sweep.keep.contains(root));
    }
    for a in 0..store.len() {
        assert_ne!(sweep.keep.contains(&a), sweep.delete.contains(&a));
    }
    assert_eq!(sweep.delete_origins, vec![3]);
    assert_eq!(sweep.reclaimable, 8);
    assert_eq!(sweep, plan_sweep(&store, 500));
}

#[test]
fn assemble_without_roots_deletes_everything() {
    let listing = vec![item("a", &[], 1, 3, "x"), item("b", &["a"], 1, 4, "y")];
    let store = RecordStore::build(&listing);
    let map = ClosureEngine::new(&store).compute_all();
    let sweep = assemble(&store, &Vec::new(), &map).unwrap();
    assert_eq!(sweep.keep, Vec::<usize>::new());
    assert_eq!(sweep.delete, vec![0, 1]);
    assert_eq!(sweep.delete_origins, vec![0, 1]);
    assert_eq!(sweep.reclaimable, 7);
}

#[test]
fn assemble_accepts_a_root_named_twice() {
    let listing = vec![item("a", &[], 1, 3, "x"), item("b", &["a"], 1, 4, "y")];
    let store = RecordStore::build(&listing);
    let map = ClosureEngine::new(&store).compute_all();
    let sweep = assemble(&store, &vec![1, 1], &map).unwrap();
    assert_eq!(sweep.keep, vec![0, 1]);
    assert_eq!(sweep.delete, Vec::<usize>::new());
}

#[test]
fn root_without_closure_stops_the_assembly() {
    let listing = vec![
        item("a", &[], 1, 3, "x"),
        item("b", &["a"], 1, 4, "y"),
        item("c", &[], 1, 5, "z"),
    ];
    let store = RecordStore::build(&listing);
    let mut engine = ClosureEngine::new(&store);
    engine.closure_of_object(1);
    let map = engine.finish();
    assert_eq!(assemble(&store, &vec![1, 0], &map).unwrap().keep, vec![0, 1]);
    assert_eq!(assemble(&store, &vec![1, 2, 0], &map), Err(GcError::RootWithoutClosure(2)));
    assert_eq!(assemble(&store, &vec![7, 2], &map), Err(GcError::RootWithoutClosure(7)));
}

#[test]
fn index_line_names_the_key() {
    assert_eq!(
        index_file_line("0c0zlfq0fkjwb4zx3w7jkg2bhkmi8a2v"),
        "0c0zlfq0fkjwb4zx3w7jkg2bhkmi8a2v.narinfo\n"
    );
    assert_eq!(index_file_line(""), ".narinfo\n");
}

#[test]
fn origin_line_is_the_origin() {
    assert_eq!(origin_file_line("nar/1abc.nar.xz"), "nar/1abc.nar.xz\n");
    assert_eq!(origin_file_line(""), "\n");
}

#[test]
fn deletion_lines_list_objects_then_archives() {
    let key = "0c0zlfq0fkjwb4zx3w7jkg2bhkmi8a2v";
    let listing = vec![
        item(&format!("/nix/store/{}-hello-2.12", key), &[], 1, 2048, "nar/hello.nar.xz"),
        item("/nix/store/keepme", &[], 1000, 1, "nar/keep.nar.xz"),
        item("/nix/store/short", &[], 1, 1024, "nar/short.nar.xz"),
    ];
    let store = RecordStore::build(&listing);
    let sweep = plan_sweep(&store, 500);
    assert_eq!(
        deletion_lines(&store, &sweep),
        vec![
            format!("{}.narinfo\n", key),
            "short.narinfo\n".to_string(),
            "nar/hello.nar.xz\n".to_string(),
            "nar/short.nar.xz\n".to_string(),
        ]
    );
}

#[test]
fn summary_counts_and_sizes() {
    let listing = vec![
        item("a", &[], 1, 2048, "x"),
        item("b", &[], 1000, 1, "y"),
        item("c", &[], 1, 1024, "z"),
    ];
    let store = RecordStore::build(&listing);
    let sweep = plan_sweep(&store, 500);
    let summary = summarize(&store, &sweep);
    assert_eq!(summary.paths_to_delete, 2);
    assert_eq!(summary.paths, 3);
    assert_eq!(summary.nars_to_delete, 2);
    assert_eq!(summary.nars, 3);
    assert_eq!(summary.reclaimable, 3072);
    assert_eq!(summary.size, "3.00 KiB");
}

#[test]
fn summary_size_picks_the_binary_unit() {
    let sizes: Vec<(u64, &str)> = vec![
        (0, "0 B"),
        (1, "1 B"),
        (1024, "1024 B"),
        (1025, "1.00 KiB"),
        (1536, "1.50 KiB"),
        (5 * 1024 * 1024, "5.00 MiB"),
        (3 * 1024 * 1024 * 1024, "3.00 GiB"),
    ];
    for (size, text) in sizes {
        let store = RecordStore::build(&vec![item("a", &[], 1, size, "x")]);
        let sweep = plan_sweep(&store, 500);
        assert_eq!(summarize(&store, &sweep).size, text);
    }
}

#[test]
fn progress_is_due_after_more_than_twenty_closures() {
    assert_eq!(PROGRESS_STEP, 20);
    assert!(!progress_due(0, 0));
    assert!(!progress_due(20, 0));
    assert!(progress_due(21, 0));
    assert!(!progress_due(41, 21));
    assert!(progress_due(42, 21));
    assert!(!progress_due(5, 30));
    assert!(!progress_due(usize::MAX, usize::MAX - 20));
    assert!(progress_due(usize::MAX, usize::MAX - 21));
    assert!(!progress_due(usize::MAX, usize::MAX));
}

#[test]
fn sweep_names_objects_of_its_store_only() {
    let listing = vec![item("a", &[], 1, 3, "x"), item("b", &["a"], 1000, 4, "y")];
    let store = RecordStore::build(&listing);
    let sweep = plan_sweep(&store, 500);
    assert!(sweep.is_within(&store));
    let smaller = RecordStore::build(&vec![item("a", &[], 1, 3, "x")]);
    assert!(!sweep.is_within(&smaller));
    let foreign = Sweep { keep: vec![], delete: vec![0, 1], delete_origins: vec![2], reclaimable: 0 };
    assert!(!foreign.is_within(&store));
}
