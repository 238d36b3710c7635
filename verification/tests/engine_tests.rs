use store_gc::engine::{Closure, ClosureEngine, ClosureMap};
use store_gc::record::{PathInfo, RecordStore};

fn object(path: &str, references: &[&str]) -> PathInfo {
    PathInfo {
        path: path.to_string(),
        references: references.iter().map(|r| r.to_string()).collect(),
        registrationTime: 0,
        downloadSize: 1,
        url: format!("nar/{}", path),
    }
}

fn sorted_keys(outcome: Closure) -> Vec<String> {
    match outcome {
        Closure::Resolved(mut keys) => {
            keys.sort();
            keys
        }
        Closure::Missing => panic!("the identifier names no object"),
    }
}

fn sorted_set(map: &ClosureMap, a: usize) -> Vec<usize> {
    let mut set = map.get(a).expect("the closure is known").clone();
    set.sort();
    set
}

fn diamond() -> Vec<PathInfo> {
    vec![
        object("top", &["left", "right"]),
        object("left", &["base"]),
        object("right", &["base", "right"]),
        object("base", &[]),
        object("alone", &[]),
    ]
}

#[test]
fn closure_of_chain_follows_every_link() {
    let listing = vec![object("A", &["B"]), object("B", &["C"]), object("C", &[])];
    let store = RecordStore::build(&listing);
    let mut engine = ClosureEngine::new(&store);
    assert_eq!(sorted_keys(engine.closure_of("A")), vec!["A", "B", "C"]);
    assert_eq!(sorted_keys(engine.closure_of("B")), vec!["B", "C"]);
    assert_eq!(sorted_keys(engine.closure_of("C")), vec!["C"]);
}

#[test]
fn closure_of_lists_members_in_order_of_discovery() {
    let store = RecordStore::build(&diamond());
    let mut engine = ClosureEngine::new(&store);
    assert_eq!(
        engine.closure_of("top"),
        Closure::Resolved(vec![
            "top".to_string(),
            "left".to_string(),
            "base".to_string(),
            "right".to_string()
        ])
    );
    assert_eq!(engine.closure_of_object(0), &vec![0, 1, 3, 2]);
}

#[test]
fn closure_of_dangling_reference_is_the_object_alone() {
    let listing = vec![object("D", &["Z"])];
    let store = RecordStore::build(&listing);
    let mut engine = ClosureEngine::new(&store);
    assert_eq!(engine.closure_of("D"), Closure::Resolved(vec!["D".to_string()]));
    assert_eq!(engine.closure_of("Z"), Closure::Missing);
    assert_eq!(engine.closure_of("Z"), Closure::Missing);
    assert_eq!(store.missing_count(), 1);
    assert_eq!(store.missing_key(0), "Z");
}

#[test]
fn closure_of_missing_identifier_computes_nothing() {
    let store = RecordStore::build(&diamond());
    let mut engine = ClosureEngine::new(&store);
    assert_eq!(engine.closure_of("nowhere"), Closure::Missing);
    assert_eq!(engine.closed_count(), 0);
    assert_eq!(engine.queued_count(), 5);
}

#[test]
fn closure_of_accepts_full_identifiers() {
    let key = "0c0zlfq0fkjwb4zx3w7jkg2bhkmi8a2v";
    let full = format!("/nix/store/{}-hello-2.12", key);
    let listing = vec![object(&full, &["dep"]), object("/nix/store/dep", &[])];
    let store = RecordStore::build(&listing);
    let mut engine = ClosureEngine::new(&store);
    assert_eq!(sorted_keys(engine.closure_of(key)), vec![key, "dep"]);
    assert_eq!(sorted_keys(engine.closure_of(&full)), vec![key, "dep"]);
}

#[test]
fn closure_holds_the_object_itself() {
    let store = RecordStore::build(&diamond());
    let mut engine = ClosureEngine::new(&store);
    for a in 0..store.len() {
        assert!(engine.closure_of_object(a).contains(&a));
    }
}

#[test]
fn closure_holds_the_closure_of_every_reference() {
    let store = RecordStore::build(&diamond());
    let mut engine = ClosureEngine::new(&store);
    for a in 0..store.len() {
        let outer = engine.closure_of_object(a).clone();
        for b in store.references(a) {
            let inner = engine.closure_of_object(*b).clone();
            assert!(inner.iter().all(|c| outer.contains(c)));
        }
    }
}

#[test]
fn self_reference_adds_nothing() {
    let with = vec![object("A", &["A", "B", "A"]), object("B", &["B"])];
    let without = vec![object("A", &["B"]), object("B", &[])];
    let store_with = RecordStore::build(&with);
    let store_without = RecordStore::build(&without);
    let map_with = ClosureEngine::new(&store_with).compute_all();
    let map_without = ClosureEngine::new(&store_without).compute_all();
    for a in 0..2 {
        assert_eq!(map_with.get(a), map_without.get(a));
    }
    assert_eq!(map_with.get(0), Some(&vec![0, 1]));
    assert_eq!(map_with.get(1), Some(&vec![1]));
}

#[test]
fn mutual_cycle_ends_with_both_objects_in_both_closures() {
    let listing = vec![object("A", &["B"]), object("B", &["A"])];
    let store = RecordStore::build(&listing);
    let mut engine = ClosureEngine::new(&store);
    assert_eq!(sorted_keys(engine.closure_of("A")), vec!["A", "B"]);
    assert_eq!(sorted_keys(engine.closure_of("B")), vec!["A", "B"]);
}

#[test]
fn cycle_cut_gives_the_closed_object_what_was_gathered_so_far() {
    let listing = vec![object("C", &["B", "D"]), object("B", &["C"]), object("D", &[])];
    let store = RecordStore::build(&listing);
    let map = ClosureEngine::new(&store).compute_all();
    assert_eq!(map.get(0), Some(&vec![0, 1, 2]));
    assert_eq!(map.get(1), Some(&vec![1, 0]));
    assert_eq!(map.get(2), Some(&vec![2]));
}

#[test]
fn long_chain_needs_no_deep_call_stack() {
    let n: usize = 4000;
    let mut listing = Vec::new();
    for i in 0..n {
        let next = format!("o{}", i + 1);
        let references: Vec<&str> = if i + 1 < n { vec![next.as_str()] } else { vec![] };
        listing.push(object(&format!("o{}", i), &references));
    }
    let store = RecordStore::build(&listing);
    let mut engine = ClosureEngine::new(&store);
    assert_eq!(engine.closure_of_object(0).len(), n);
    assert_eq!(engine.closed_count(), n);
    assert_eq!(engine.closure_of_object(n - 1), &vec![n - 1]);
}

#[test]
fn known_closure_is_handed_out_again_unchanged() {
    let store = RecordStore::build(&diamond());
    let mut engine = ClosureEngine::new(&store);
    let first = engine.closure_of_object(1).clone();
    let closed = engine.closed_count();
    let second = engine.closure_of_object(1).clone();
    assert_eq!(first, second);
    assert_eq!(engine.closed_count(), closed);
    assert_eq!(closed, 2);
    assert!(engine.is_closed(1));
    assert!(engine.is_closed(3));
    assert!(!engine.is_closed(0));
}

#[test]
fn advance_takes_the_first_object_of_the_queue() {
    let store = RecordStore::build(&diamond());
    let mut engine = ClosureEngine::new(&store);
    assert_eq!(engine.queued_count(), 5);
    assert_eq!(engine.advance(), Some(0));
    assert_eq!(engine.closed_count(), 4);
    assert_eq!(engine.advance(), Some(4));
    assert_eq!(engine.queued_count(), 0);
    assert_eq!(engine.advance(), None);
    assert_eq!(engine.advance(), None);
}

#[test]
fn compute_all_covers_every_object() {
    let store = RecordStore::build(&diamond());
    let map = ClosureEngine::new(&store).compute_all();
    assert_eq!(map.len(), 5);
    assert_eq!(sorted_set(&map, 0), vec![0, 1, 2, 3]);
    assert_eq!(sorted_set(&map, 1), vec![1, 3]);
    assert_eq!(sorted_set(&map, 2), vec![2, 3]);
    assert_eq!(sorted_set(&map, 3), vec![3]);
    assert_eq!(sorted_set(&map, 4), vec![4]);
    assert_eq!(map.get(5), None);
}

#[test]
fn compute_all_agrees_with_closure_of_in_any_order() {
    let store = RecordStore::build(&diamond());
    let map = ClosureEngine::new(&store).compute_all();
    let orders: Vec<Vec<usize>> = vec![vec![0, 1, 2, 3, 4], vec![4, 3, 2, 1, 0], vec![3, 0, 4, 2, 1]];
    for order in orders {
        let mut engine = ClosureEngine::new(&store);
        for a in &order {
            let mut set = engine.closure_of_object(*a).clone();
            set.sort();
            assert_eq!(set, sorted_set(&map, *a));
        }
        let late = engine.finish();
        for a in 0..5 {
            assert_eq!(sorted_set(&late, a), sorted_set(&map, a));
        }
    }
}

#[test]
fn finish_gives_what_was_computed_so_far() {
    let store = RecordStore::build(&diamond());
    let mut engine = ClosureEngine::new(&store);
    engine.closure_of_object(1);
    let map = engine.finish();
    assert_eq!(map.get(0), None);
    assert_eq!(map.get(1), Some(&vec![1, 3]));
    assert_eq!(map.get(3), Some(&vec![3]));
    assert_eq!(map.get(4), None);
}

#[test]
fn compute_all_of_empty_store_is_empty() {
    let store = RecordStore::build(&Vec::new());
    let map = ClosureEngine::new(&store).compute_all();
    assert_eq!(map.len(), 0);
    assert_eq!(map.get(0), None);
}

#[test]
fn closure_in_a_cycle_depends_on_where_the_walk_starts() {
    let listing = vec![object("C", &["B", "D"]), object("B", &["C"]), object("D", &[])];
    let store = RecordStore::build(&listing);
    let mut engine = ClosureEngine::new(&store);
    assert_eq!(engine.closure_of_object(1), &vec![1, 0, 2]);
    assert_eq!(engine.closure_of_object(0), &vec![0, 1, 2]);
    assert_eq!(engine.closure_of_object(2), &vec![2]);
}

#[test]
fn repeated_reference_adds_nothing() {
    let listing = vec![object("A", &["B", "B", "/nix/store/B"]), object("B", &[])];
    let store = RecordStore::build(&listing);
    assert_eq!(store.references(0), &vec![1, 1, 1]);
    let mut engine = ClosureEngine::new(&store);
    assert_eq!(engine.closure_of_object(0), &vec![0, 1]);
}

fn next_random(state: &mut u64) -> usize {
    *state = state.wrapping_mul(6364136223846793005).wrapping_add(1442695040888963407);
    (*state >> 33) as usize
}

fn reach(edges: &Vec<Vec<usize>>, from: usize) -> Vec<usize> {
    let mut seen = vec![false; edges.len()];
    let mut todo = vec![from];
    seen[from] = true;
    while let Some(a) = todo.pop() {
        for b in &edges[a] {
            if !seen[*b] {
                seen[*b] = true;
                todo.push(*b);
            }
        }
    }
    (0..edges.len()).filter(|a| seen[*a]).collect()
}

fn listing_of(edges: &Vec<Vec<usize>>) -> Vec<PathInfo> {
    let mut listing = Vec::new();
    for (a, targets) in edges.iter().enumerate() {
        let names: Vec<String> = targets.iter().map(|b| format!("n{}", b)).collect();
        let references: Vec<&str> = names.iter().map(|n| n.as_str()).collect();
        listing.push(object(&format!("n{}", a), &references));
    }
    listing
}

#[test]
fn closures_without_cycles_are_what_is_reached() {
    let mut state: u64 = 7;
    for _ in 0..20 {
        let n = 40;
        let mut edges: Vec<Vec<usize>> = vec![Vec::new(); n];
        for a in 0..n {
            for _ in 0..3 {
                let b = next_random(&mut state) % n;
                if b >= a {
                    edges[a].push(b);
                }
            }
        }
        let store = RecordStore::build(&listing_of(&edges));
        let map = ClosureEngine::new(&store).compute_all();
        for a in 0..n {
            assert_eq!(store.references(a), &edges[a]);
            assert_eq!(sorted_set(&map, a), reach(&edges, a));
        }
    }
}

#[test]
fn closures_with_cycles_stay_within_what_is_reached() {
    let mut state: u64 = 11;
    for _ in 0..20 {
        let n = 30;
        let mut edges: Vec<Vec<usize>> = vec![Vec::new(); n];
        for a in 0..n {
            for _ in 0..2 {
                edges[a].push(next_random(&mut state) % n);
            }
        }
        let store = RecordStore::build(&listing_of(&edges));
        let map = ClosureEngine::new(&store).compute_all();
        for a in 0..n {
            let set = sorted_set(&map, a);
            let reached = reach(&edges, a);
            assert!(set.contains(&a));
            assert!(edges[a].iter().all(|b| set.contains(b)));
            assert!(set.iter().all(|b| reached.contains(b)));
            let mut once = set.clone();
            once.dedup();
            assert_eq!(once, set);
        }
    }
}
