use gcrates::explore::{
    aggregate_tops, dependency_rings, dependent_counts, focus_rings, gather_candidates,
    group_by_first_parent, layout_order, rank_candidates, select_direct_dependencies,
    select_direct_neighbours, summarize_cluster, top_targets, GraphHandle, NeighbourCandidate,
};
use gcrates::format::{StoredDependency, StoredGraph, StoredPackage, NO_STRING};
use gcrates::graph::DependencyKind;

fn package(crate_id: u32, downloads: u64, start: u32, count: u32) -> StoredPackage {
    StoredPackage {
        crate_id,
        name: 0,
        version: 0,
        downloads,
        dependency_start: start,
        dependency_count: count,
    }
}

fn on(package_index: u32, kind: u8) -> StoredDependency {
    StoredDependency {
        package_index,
        req: 0,
        target: NO_STRING,
        kind,
        flags: 0,
    }
}

/// root (0) depends on a (1) twice, b (2) and c (3), and on a missing package; a, b and c
/// depend on d (4), e (5), f (6) and g (7); d and f depend on the leaf h (8).
fn ring_graph() -> StoredGraph {
    StoredGraph {
        strings: vec!["x".to_owned()],
        packages: vec![
            package(1, 1000, 0, 5),
            package(11, 100, 5, 4),
            package(5, 100, 9, 3),
            package(3, 50, 12, 2),
            package(4, 40, 14, 1),
            package(6, 60, 15, 0),
            package(7, 60, 15, 1),
            package(8, 10, 16, 0),
            package(9, 5, 16, 0),
        ],
        dependencies: vec![
            on(1, 0),
            on(2, 2),
            on(1, 1),
            on(3, 0),
            on(9, 0),
            on(4, 0),
            on(5, 0),
            on(0, 0),
            on(2, 0),
            on(4, 0),
            on(6, 0),
            on(6, 0),
            on(5, 0),
            on(7, 0),
            on(8, 0),
            on(8, 0),
        ],
    }
}

fn packages_of(candidates: &[NeighbourCandidate]) -> Vec<usize> {
    candidates.iter().map(|c| c.package_index).collect()
}

#[test]
fn dependency_view_direct_ring_is_unique_and_sorted() {
    let graph = ring_graph();
    let direct = select_direct_dependencies(&graph, &graph.packages[0], 32);
    assert_eq!(
        direct,
        vec![(2, DependencyKind::Dev), (1, DependencyKind::Normal), (3, DependencyKind::Normal)]
    );
    let cut = select_direct_dependencies(&graph, &graph.packages[0], 2);
    assert_eq!(cut, vec![(2, DependencyKind::Dev), (1, DependencyKind::Normal)]);
}

#[test]
fn gathering_collects_every_slot_a_package_hangs_from() {
    let graph = ring_graph();
    let mut gathered = gather_candidates(&graph, 0, &[2, 1, 3], &[2, 1, 3], false);
    gathered.sort_by_key(|c| c.package_index);
    assert_eq!(packages_of(&gathered), vec![4, 5, 6, 7]);
    assert_eq!(gathered[0].parents, vec![0, 1]);
    assert_eq!(gathered[1].parents, vec![1, 2]);
    assert_eq!(gathered[2].parents, vec![0]);
    assert_eq!(gathered[3].parents, vec![2]);
    assert_eq!(gathered[1].downloads, 60);
    let leaves = gather_candidates(&graph, 0, &[2, 1, 3], &[2, 1, 3], true);
    assert_eq!(packages_of(&leaves).len(), 2);
    assert!(leaves.iter().all(|c| c.package_index == 5 || c.package_index == 7));
}

#[test]
fn ranking_orders_by_parents_then_downloads_then_package() {
    let candidates = vec![
        NeighbourCandidate { package_index: 7, downloads: 10, parents: vec![2] },
        NeighbourCandidate { package_index: 6, downloads: 60, parents: vec![0] },
        NeighbourCandidate { package_index: 4, downloads: 40, parents: vec![0, 1] },
        NeighbourCandidate { package_index: 5, downloads: 60, parents: vec![1, 2] },
        NeighbourCandidate { package_index: 3, downloads: 60, parents: vec![0] },
    ];
    let ranked = rank_candidates(candidates, 4);
    assert_eq!(packages_of(&ranked), vec![5, 4, 3, 6]);
}

#[test]
fn grouping_follows_the_first_parent() {
    let ranked = vec![
        NeighbourCandidate { package_index: 5, downloads: 60, parents: vec![1, 2] },
        NeighbourCandidate { package_index: 4, downloads: 40, parents: vec![0, 1] },
        NeighbourCandidate { package_index: 6, downloads: 60, parents: vec![0] },
        NeighbourCandidate { package_index: 7, downloads: 10, parents: vec![5] },
    ];
    let groups = group_by_first_parent(&ranked, 3);
    assert_eq!(groups, vec![(0, vec![1, 2]), (1, vec![0])]);
}

#[test]
fn dependency_view_rings() {
    let graph = ring_graph();
    let rings = dependency_rings(&graph, 0);
    assert_eq!(
        rings.direct,
        vec![(2, DependencyKind::Dev), (1, DependencyKind::Normal), (3, DependencyKind::Normal)]
    );
    assert_eq!(packages_of(&rings.secondary), vec![5, 4, 6, 7]);
    assert_eq!(rings.secondary[0].parents, vec![1, 2]);
    assert_eq!(rings.secondary[1].parents, vec![0, 1]);
    assert_eq!(rings.secondary_groups, vec![(0, vec![1, 2]), (1, vec![0]), (2, vec![3])]);
    assert_eq!(rings.secondary_slots, vec![4, 6, 5, 7]);
    assert_eq!(packages_of(&rings.tertiary), vec![8]);
    assert_eq!(rings.tertiary[0].parents, vec![0, 1]);
    assert_eq!(rings.tertiary_groups, vec![(0, vec![0])]);
}

#[test]
fn focus_view_direct_ring_keeps_repeated_targets() {
    let graph = ring_graph();
    let direct = select_direct_neighbours(&graph, &graph.packages[0], 18);
    assert_eq!(
        direct,
        vec![
            (2, DependencyKind::Dev),
            (1, DependencyKind::Normal),
            (1, DependencyKind::Build),
            (3, DependencyKind::Normal)
        ]
    );
}

#[test]
fn top_targets_break_ties_by_first_mention() {
    let graph = StoredGraph {
        strings: vec!["x".to_owned()],
        packages: vec![
            package(1, 1, 0, 4),
            package(2, 5, 4, 0),
            package(2, 5, 4, 0),
            package(3, 9, 4, 0),
        ],
        dependencies: vec![on(2, 0), on(1, 0), on(2, 1), on(3, 0)],
    };
    assert_eq!(top_targets(&graph, &graph.packages[0], 0, &[], 5), vec![3, 2, 1]);
    assert_eq!(top_targets(&graph, &graph.packages[0], 0, &[3], 2), vec![2, 1]);
}

#[test]
fn aggregating_counts_the_lists_holding_each_package() {
    let graph = ring_graph();
    let tops = vec![vec![6, 4], vec![5, 4], vec![5, 4], vec![5, 7]];
    let mut listed = aggregate_tops(&graph, &tops);
    listed.sort_by_key(|c| c.package_index);
    assert_eq!(packages_of(&listed), vec![4, 5, 6, 7]);
    assert_eq!(listed[0].parents, vec![0, 1, 2]);
    assert_eq!(listed[1].parents, vec![1, 2, 3]);
    assert_eq!(listed[2].parents, vec![0]);
    assert_eq!(listed[3].parents, vec![3]);
}

#[test]
fn focus_view_rings() {
    let graph = ring_graph();
    let rings = focus_rings(&graph, 0);
    assert_eq!(rings.direct.len(), 4);
    assert_eq!(packages_of(&rings.secondary), vec![5, 4, 6, 7]);
    assert_eq!(rings.secondary[0].parents, vec![1, 2, 3]);
    assert_eq!(rings.secondary_groups, vec![(0, vec![1, 2]), (1, vec![0]), (3, vec![3])]);
    let dependents: Vec<usize> = rings.dependents.iter().map(|(i, _)| *i).collect();
    assert_eq!(dependents, vec![1]);
}

#[test]
fn layout_order_ranks_by_downloads_then_crate_id() {
    let graph = ring_graph();
    assert_eq!(layout_order(&graph), vec![0, 2, 1, 5, 6, 3, 4, 7, 8]);
}

#[test]
fn cluster_summary_counts_sums_and_samples() {
    let graph = ring_graph();
    let counts = dependent_counts(&graph);
    assert_eq!(counts, vec![1, 2, 2, 1, 2, 2, 2, 1, 2]);
    let summary = summarize_cluster(&graph, &counts, &[4, 6, 5, 8]);
    assert_eq!(summary.count, 4);
    assert_eq!(summary.total_downloads, 165);
    assert_eq!(summary.max_downloads, 60);
    assert_eq!(summary.top_package_index, 5);
    assert_eq!(summary.dependency_count, 0);
    assert_eq!(summary.dependent_count, 2);
    assert_eq!(summary.sample_packages, vec![5, 6, 4, 8]);
}

#[test]
fn cluster_summary_saturates_download_totals() {
    let mut graph = ring_graph();
    graph.packages[1].downloads = u64::MAX;
    graph.packages[2].downloads = 7;
    let counts = dependent_counts(&graph);
    let summary = summarize_cluster(&graph, &counts, &[1, 2]);
    assert_eq!(summary.total_downloads, u64::MAX);
    assert_eq!(summary.top_package_index, 1);
    assert_eq!(summary.sample_packages, vec![1, 2]);
}

#[test]
fn handle_finds_the_rings_of_a_named_crate() {
    let graph = ring_graph();
    let mut bytes = Vec::new();
    graph.write_to(&mut bytes).unwrap();
    let handle = GraphHandle::from_bytes(&bytes).unwrap();
    let (index, rings) = handle.dependency_focus(" X ").unwrap();
    assert_eq!(index, 0);
    assert_eq!(rings.secondary_slots, vec![4, 6, 5, 7]);
    let (index, focus) = handle.focal_scene("x").unwrap();
    assert_eq!(index, 0);
    assert_eq!(focus.direct.len(), 4);
    assert!(handle.dependency_focus("nope").is_none());
    assert!(handle.focal_scene("").is_none());
}

#[test]
fn rings_never_repeat_a_package() {
    let graph = ring_graph();
    let rings = dependency_rings(&graph, 0);
    let direct: Vec<usize> = rings.direct.iter().map(|(i, _)| *i).collect();
    for candidate in &rings.secondary {
        assert_ne!(candidate.package_index, 0);
        assert!(!direct.contains(&candidate.package_index));
    }
    for candidate in &rings.tertiary {
        assert_ne!(candidate.package_index, 0);
        assert!(!direct.contains(&candidate.package_index));
        assert!(!rings.secondary_slots.contains(&candidate.package_index));
        assert_eq!(graph.packages[candidate.package_index].dependency_count, 0);
    }
    let focus = focus_rings(&graph, 0);
    let focus_direct: Vec<usize> = focus.direct.iter().map(|(i, _)| *i).collect();
    for candidate in &focus.secondary {
        assert_ne!(candidate.package_index, 0);
        assert!(!focus_direct.contains(&candidate.package_index));
    }
}
