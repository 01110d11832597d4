use elude::bits::{bit_intersection_count, bit_or, bit_set, bit_test};
use elude::builder::Build;
use elude::dag::{build_successors, compute_strict_heights, find_roots, reduce_strict};
use elude::depend::{Conflict, Dependency, Key, Order, Scope};
use elude::error::Error;
use elude::groups::{earliest_group, max_option, update_trackers};
use elude::job::Job;
use elude::keys::KeyMap;
use elude::layout::{assign_homes, Home};
use elude::normalize::{normalize_dependencies, relation, Access, NormalizedDeps, Relation};
use elude::orient::{build_job_stats, build_key_heat, inverse_order};
use elude::utility::{is_sorted_set, sorted_difference, sorted_intersects};
use elude::variants::{build_priority_order, VariantKind};
use elude::word::{decompose, mark_ready, recompose, release_mask, reserve_page};
use elude::work::{Weak, Worker};

const RELAX: Order = Order::Relax;
const STRICT: Order = Order::Strict;

fn read(identifier: usize, order: Order) -> Dependency {
    Dependency::Read(Key::Identifier(identifier), order)
}

fn write(identifier: usize, order: Order) -> Dependency {
    Dependency::Write(Key::Identifier(identifier), order)
}

#[test]
fn model_normalize_rejects_read_write_aliasing_within_one_job() {
    let error =
        normalize_dependencies(vec![read(1, RELAX), write(1, STRICT), read(1, RELAX)]).unwrap_err();
    assert!(matches!(
        error,
        Error::ReadWriteConflict(Key::Identifier(1), Scope::Inner, Order::Strict)
    ));
}

#[test]
fn model_normalize_merges_duplicate_reads() {
    let normalized =
        normalize_dependencies(vec![read(1, RELAX), read(1, STRICT), read(1, RELAX)]).unwrap();
    assert_eq!(
        normalized,
        NormalizedDeps::Known(vec![Access {
            key: Key::Identifier(1),
            order: STRICT,
            write: false,
        }])
    );
}

#[test]
fn model_normalize_rejects_duplicate_writes_within_one_job() {
    let error = normalize_dependencies(vec![write(1, RELAX), write(1, STRICT)]).unwrap_err();
    assert!(matches!(
        error,
        Error::WriteWriteConflict(Key::Identifier(1), Scope::Inner, Order::Strict)
    ));
}

#[test]
fn model_relation_distinguishes_none_relaxed_and_strict() {
    let of = |dependency: Dependency| normalize_dependencies(vec![dependency]).unwrap();
    let none = relation(&of(read(0, RELAX)), &of(read(0, STRICT)));
    let relaxed = relation(&of(read(0, RELAX)), &of(write(0, RELAX)));
    let strict = relation(&of(write(0, RELAX)), &of(write(0, STRICT)));
    assert_eq!(none, Relation::Free);
    assert_eq!(relaxed, Relation::Relaxed);
    assert_eq!(strict, Relation::Strict);
}

#[test]
fn model_strict_reduction_drops_transitive_edges() {
    let reduced = reduce_strict(&[vec![], vec![0], vec![0, 1]]);
    assert_eq!(reduced, vec![vec![], vec![0], vec![1]]);
}

#[test]
fn assign_homes_packs_isolated_jobs_together() {
    let homes = assign_homes(&[vec![], vec![], vec![]]);
    assert_eq!(
        homes,
        vec![
            Home { page: 0, slot: 0 },
            Home { page: 0, slot: 1 },
            Home { page: 0, slot: 2 },
        ]
    );
}

#[test]
fn earliest_group_respects_strict_history_only() {
    let mut trackers = KeyMap::new();
    let mut last_unknown = None;
    let read_relax = normalize_dependencies(vec![read(0, RELAX)]).unwrap();
    let read_strict = normalize_dependencies(vec![read(0, STRICT)]).unwrap();
    let write_relax = normalize_dependencies(vec![write(0, RELAX)]).unwrap();

    assert_eq!(earliest_group(&read_relax, &trackers, last_unknown, 0), 0);
    update_trackers(&read_strict, 0, &mut trackers, &mut last_unknown);
    assert_eq!(earliest_group(&read_relax, &trackers, last_unknown, 1), 0);
    assert_eq!(earliest_group(&write_relax, &trackers, last_unknown, 1), 1);
}

#[test]
fn read_heavy_variant_keeps_hot_write_last_when_legal() {
    let normals = vec![
        normalize_dependencies(vec![read(0, RELAX)]).unwrap(),
        normalize_dependencies(vec![write(0, RELAX)]).unwrap(),
        normalize_dependencies(vec![read(0, RELAX)]).unwrap(),
    ];
    let relaxed: Vec<Vec<u32>> = vec![vec![1, 2], vec![0, 2], vec![0, 1]];
    let fixed: Vec<Vec<u32>> = vec![vec![], vec![], vec![]];
    let fixed_successors = build_successors(&fixed);
    let key_heat = build_key_heat(&normals, None);
    let stats = build_job_stats(&normals, &relaxed, &fixed_successors, &key_heat);
    let order = build_priority_order(VariantKind::ReadHeavy, &fixed, &fixed_successors, &stats);
    assert_eq!(order[0], 0);
    assert_eq!(order[1], 2);
    assert_eq!(order[2], 1);
}

#[test]
fn dependencies_is_empty() {
    let mut worker = Worker::new();
    worker.push(Job::ok());
    worker.update().unwrap();
    let graph = worker.graph();
    let roots = graph.roots();
    assert_eq!(roots.len(), 1);
    let root = &roots[0];
    assert_eq!(root.index(), 0);
    assert!(root.dependencies().is_empty());
}

#[test]
fn barrier_forces_sequential() {
    let mut worker = Worker::new();
    worker.extend(vec![Job::ok(), Job::barrier(), Job::ok()]);
    worker.update().unwrap();
    let graph = worker.graph();
    let a = &graph.roots()[0];
    let b = &a.next()[0];
    let c = &b.next()[0];
    assert_eq!(a.index(), 0);
    assert!(a.dependencies().is_empty());
    assert_eq!(b.index(), 1);
    assert_eq!(b.dependencies(), [Dependency::Unknown]);
    assert_eq!(c.index(), 2);
    assert!(c.dependencies().is_empty());
}

#[test]
fn any_read_read_run_in_parallel() {
    let mut worker = Worker::new();
    worker.extend(vec![
        Job::ok().depend(vec![read(0, RELAX)]),
        Job::ok().depend(vec![read(1, STRICT)]),
        Job::ok().depend(vec![read(0, STRICT)]),
        Job::ok().depend(vec![read(1, RELAX)]),
    ]);
    worker.update().unwrap();
    let graph = worker.graph();
    assert!(graph.clusters().is_empty());
    assert_eq!(
        graph
            .roots()
            .iter()
            .filter(|root| root.next().is_empty()
                && root.previous().is_empty()
                && root.rivals().is_empty())
            .count(),
        4
    );
}

#[test]
fn relax_read_write_creates_cluster() {
    let mut worker = Worker::new();
    worker.extend(vec![
        Job::ok().depend(vec![read(0, RELAX)]),
        Job::ok().depend(vec![write(0, RELAX)]),
    ]);
    worker.update().unwrap();
    let graph = worker.graph();
    let cluster = &graph.clusters()[0];
    assert_eq!(cluster.nodes().len(), 2);
    assert_eq!(graph.roots().len(), 2);
}

#[test]
fn workers_report_clashes_within_a_job() {
    let mut worker = Worker::new();
    worker.push(Job::ok().depend(vec![write(3, RELAX), read(3, STRICT)]));
    let error = worker.update().unwrap_err();
    let text = format!("{error:?}");
    assert!(text.contains("ReadWriteConflict"), "{text}");
    assert!(text.contains("Inner"), "{text}");
}

#[test]
fn graphs_tell_who_is_whose_rival() {
    let mut worker = Worker::new();
    worker.extend(vec![
        Job::ok().depend(vec![write(0, RELAX)]),
        Job::ok().depend(vec![write(0, RELAX)]),
        Job::ok().depend(vec![write(0, STRICT)]),
    ]);
    worker.update().unwrap();
    let graph = worker.graph();
    let nodes = graph.nodes();
    assert_eq!(nodes[0].rivals()[0].index(), 1);
    assert_eq!(nodes[1].rivals()[0].index(), 0);
    let before: Vec<usize> = nodes[2].previous().iter().map(|node| node.index()).collect();
    assert_eq!(before, vec![0, 1]);
}

#[test]
fn conflicts_are_told_by_scope_and_order() {
    let mut conflict = Conflict::default();
    assert!(conflict.detect_inner(&[read(0, RELAX), read(0, STRICT)], false).is_ok());
    conflict.clear();
    assert!(conflict.detect_inner(&[write(0, RELAX), write(0, STRICT)], false).is_err());
    conflict.clear();
    assert!(conflict.detect_inner(&[write(0, RELAX)], false).is_ok());
    assert!(matches!(conflict.detect_outer(&[read(1, STRICT)], false), Ok(Order::Strict)));
    assert!(matches!(conflict.detect_outer(&[read(0, RELAX)], false), Ok(Order::Relax)));
    let error = conflict.detect_outer(&[read(0, STRICT)], false).unwrap_err();
    assert!(matches!(
        error,
        Error::ReadWriteConflict(Key::Identifier(0), Scope::Outer, Order::Strict)
    ));
    let error = conflict.detect_outer(&[write(0, STRICT)], false).unwrap_err();
    assert!(matches!(
        error,
        Error::WriteWriteConflict(Key::Identifier(0), Scope::Outer, Order::Strict)
    ));
    let error = conflict.detect_outer(&[Dependency::Unknown], false).unwrap_err();
    assert!(matches!(error, Error::UnknownConflict(Scope::Outer)));
}

#[test]
fn clashes_leave_nothing_but_their_order() {
    let mut conflict = Conflict::default();
    assert!(conflict.conflict(Scope::Inner, &write(1, RELAX), true).is_ok());
    let text = |result: Result<Order, Error>| format!("{result:?}");
    assert_eq!(
        text(conflict.conflict(Scope::Inner, &read(1, STRICT), false)),
        text(Err(Error::ReadWriteConflict(Key::Identifier(1), Scope::Inner, STRICT)))
    );
    assert!(matches!(conflict.conflict(Scope::Outer, &write(1, RELAX), false), Ok(Order::Relax)));
    assert!(conflict.conflict(Scope::Inner, &read(1, STRICT), true).is_err());
    assert_eq!(
        text(conflict.conflict(Scope::Outer, &write(1, RELAX), false)),
        text(Err(Error::WriteWriteConflict(Key::Identifier(1), Scope::Outer, STRICT)))
    );
    assert!(matches!(conflict.conflict(Scope::Outer, &read(2, STRICT), false), Ok(Order::Strict)));
}

#[test]
fn errors_are_merged_and_flattened() {
    let one = Error::FailedToRun;
    let two = Error::UnknownConflict(Scope::Outer);
    let three = Error::FailedToRun;
    let merged = one.merge(two).merge(three);
    assert!(matches!(&merged, Error::All(errors) if errors.len() == 3));
    assert!(matches!(Error::all(vec![Error::FailedToRun]).flatten(true), Some(Error::FailedToRun)));
    assert!(Error::all(vec![]).flatten(true).is_none());
}

#[test]
fn keys_are_found_by_what_they_hold() {
    let mut map: KeyMap<u32> = KeyMap::new();
    map.insert(Key::Path(String::from("b")), 1);
    map.insert(Key::Path(String::from("a")), 2);
    map.insert(Key::Identifier(4), 3);
    map.insert(Key::Address(4), 4);
    map.insert(Key::Type(std::any::TypeId::of::<u8>()), 5);
    map.insert(Key::Type(std::any::TypeId::of::<u16>()), 6);
    map.insert(Key::Path(String::from("a")), 7);
    assert_eq!(map.get(&Key::Path(String::from("a"))), Some(&7));
    assert_eq!(map.get(&Key::Path(String::from("b"))), Some(&1));
    assert_eq!(map.get(&Key::Identifier(4)), Some(&3));
    assert_eq!(map.get(&Key::Address(4)), Some(&4));
    assert_eq!(map.get(&Key::Type(std::any::TypeId::of::<u8>())), Some(&5));
    assert_eq!(map.get(&Key::Type(std::any::TypeId::of::<u16>())), Some(&6));
    assert_eq!(map.get(&Key::Path(String::from("c"))), None);
    map.clear();
    assert!(map.is_empty());
}

#[test]
fn paths_are_ordered_letter_by_letter() {
    let path = |text: &str| Key::Path(String::from(text));
    assert!(path("a").precedes(&path("b")));
    assert!(path("a").precedes(&path("aa")));
    assert!(!path("b").precedes(&path("ab")));
    assert!(!path("a").precedes(&path("a")));
}

#[test]
fn types_are_told_apart() {
    let left = Dependency::read::<u8>(RELAX);
    let right = Dependency::write::<u16>(RELAX);
    let same = Dependency::write::<u8>(RELAX);
    let of = |dependency: Dependency| normalize_dependencies(vec![dependency]).unwrap();
    assert_eq!(relation(&of(left.clone()), &of(right)), Relation::Free);
    assert_eq!(relation(&of(left), &of(same)), Relation::Relaxed);
}

#[test]
fn sorted_sets_are_told_and_combined() {
    assert!(sorted_intersects(&[1, 1, 3, 3], &[2, 2, 3]));
    assert!(!sorted_intersects(&[1, 1, 4, 4], &[2, 2, 3, 3]));
    assert!(is_sorted_set(&[1, 3, 4]));
    assert!(!is_sorted_set(&[1, 3, 3]));
    assert!(sorted_intersects(&[1, 3, 4], &[0, 4]));
    assert!(!sorted_intersects(&[1, 3], &[0, 2, 4]));
    let mut list = vec![1, 2, 3, 5];
    assert!(sorted_difference(&mut list, &[2, 5, 6]));
    assert_eq!(list, vec![1, 3]);
    assert!(!sorted_difference(&mut list, &[0, 2]));
}

#[test]
fn bits_are_counted_and_joined() {
    let mut left = vec![0u64; 2];
    let mut right = vec![0u64; 2];
    bit_set(&mut left, 3);
    bit_set(&mut left, 64);
    bit_set(&mut right, 64);
    bit_set(&mut right, 127);
    assert_eq!(bit_intersection_count(&left, &right), 1);
    bit_or(&mut left, &right);
    assert!(bit_test(&left, 127) && bit_test(&left, 3) && !bit_test(&left, 4));
    assert_eq!(bit_intersection_count(&left, &[u64::MAX, u64::MAX]), 3);
}

#[test]
fn words_are_taken_apart_and_put_together() {
    assert_eq!(decompose(recompose(5, 9)), (5, 9));
    let mut state = recompose(0, 1);
    assert!(!reserve_page(&mut state, 1, 0));
    mark_ready(&mut state, 4);
    assert!(reserve_page(&mut state, 2, 4));
    assert_eq!(decompose(state), (0, 3));
    release_mask(&mut state, 2);
    assert_eq!(decompose(state), (0, 1));
}

#[test]
fn weak_jobs_lock_early_or_late() {
    let mut weak = Weak::new();
    weak.ready = 2;
    weak.lock = 3;
    let mut bits = recompose(0, 1);
    assert_eq!(weak.early_reserve(&mut bits), None);
    assert_eq!(decompose(bits), (2, 1));
    assert!(weak.late_reserve(&mut bits).is_err());
    bits = recompose(2, 0);
    assert_eq!(weak.late_reserve(&mut bits), Ok(recompose(2, 0)));
    assert_eq!(decompose(bits), (0, 3));
    assert_eq!(weak.release(&mut bits), recompose(0, 3));
    assert_eq!(decompose(bits), (0, 0));
}

#[test]
fn graphs_are_turned_around() {
    let predecessors: Vec<Vec<u32>> = vec![vec![], vec![0], vec![0], vec![1, 2]];
    let successors = build_successors(&predecessors);
    assert_eq!(successors, vec![vec![1, 2], vec![3], vec![3], vec![]]);
    assert_eq!(find_roots(&predecessors), vec![0]);
    assert_eq!(compute_strict_heights(&successors), vec![2, 1, 1, 0]);
    assert_eq!(inverse_order(&[2, 0, 1]), vec![1, 2, 0]);
    assert_eq!(max_option(Some(3), None), Some(3));
    assert_eq!(max_option(Some(3), Some(5)), Some(5));
}

#[test]
fn variants_are_named() {
    assert_eq!(VariantKind::CriticalPath.name(), "critical_path");
    assert_eq!(VariantKind::ReadHeavy.name(), "read_heavy");
    assert_eq!(VariantKind::HotContention.name(), "hot_contention");
}

#[test]
fn built_jobs_read_their_part_of_the_state() {
    let mut worker = Worker::new();
    Build::new().read(64).job(&mut worker, 0u8);
    Build::new().read(64).relax().job(&mut worker, 1u8);
    worker.update().unwrap();
    let graph = worker.graph();
    let nodes = graph.nodes();
    assert_eq!(nodes[0].dependencies(), [Dependency::Read(Key::Address(64), STRICT)]);
    assert_eq!(nodes[1].dependencies(), [Dependency::Read(Key::Address(64), RELAX)]);
    assert_eq!(graph.roots().len(), 2);
    assert_eq!(Build::new().write(8).order(STRICT).access.address, 8);
    assert_eq!(Build::new().write(8).strict().order, Some(STRICT));
}
