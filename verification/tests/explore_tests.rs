use gcrates::explore::{
    collect_dependents_sorted, collect_unique_dependencies, dependency_kind_priority,
    dependency_summary_line, dependent_counts, ranges_fit, stable_hash, voxel_hash, GraphHandle,
};
use gcrates::format::{FormatError, StoredDependency, StoredGraph, StoredPackage, NO_STRING};
use gcrates::graph::DependencyKind;

fn package(crate_id: u32, name: u32, downloads: u64, start: u32, count: u32) -> StoredPackage {
    StoredPackage {
        crate_id,
        name,
        version: 3,
        downloads,
        dependency_start: start,
        dependency_count: count,
    }
}

fn dependency(package_index: u32, req: u32, target: u32, kind: u8, flags: u8) -> StoredDependency {
    StoredDependency {
        package_index,
        req,
        target,
        kind,
        flags,
    }
}

/// alpha depends on beta (dev, then build), gamma and a missing package; beta depends on
/// alpha; gamma depends on beta twice.
fn sample_graph() -> StoredGraph {
    StoredGraph {
        strings: vec![
            "alpha".to_owned(),
            "beta".to_owned(),
            "gamma".to_owned(),
            "1.0.0".to_owned(),
            "^1".to_owned(),
            "cfg(unix)".to_owned(),
            "*".to_owned(),
        ],
        packages: vec![
            package(10, 0, 500, 0, 4),
            package(20, 1, 900, 4, 1),
            package(5, 2, 500, 5, 2),
        ],
        dependencies: vec![
            dependency(1, 4, NO_STRING, 2, 0),
            dependency(2, 6, 5, 0, 0b01),
            dependency(1, 4, NO_STRING, 1, 0b10),
            dependency(99, 4, NO_STRING, 0, 0),
            dependency(0, 4, NO_STRING, 0, 0b10),
            dependency(1, 4, NO_STRING, 0, 0),
            dependency(1, 6, NO_STRING, 2, 0),
        ],
    }
}

fn handle(graph: &StoredGraph) -> GraphHandle {
    let mut bytes = Vec::new();
    graph.write_to(&mut bytes).unwrap();
    GraphHandle::from_bytes(&bytes).unwrap()
}

fn names_graph(names: &[(&str, u64)]) -> StoredGraph {
    let mut strings: Vec<String> = names.iter().map(|(name, _)| name.to_string()).collect();
    strings.push("1.0.0".to_owned());
    let version = (strings.len() - 1) as u32;
    let packages = names
        .iter()
        .enumerate()
        .map(|(i, (_, downloads))| StoredPackage {
            crate_id: i as u32,
            name: i as u32,
            version,
            downloads: *downloads,
            dependency_start: 0,
            dependency_count: 0,
        })
        .collect();
    StoredGraph {
        strings,
        packages,
        dependencies: Vec::new(),
    }
}

#[test]
fn dependent_counts_count_every_edge_into_a_package() {
    let graph = sample_graph();
    assert_eq!(dependent_counts(&graph), vec![1, 4, 1]);
}

#[test]
fn dependents_are_sorted_by_downloads_then_crate_id() {
    let graph = sample_graph();
    let dependents = collect_dependents_sorted(&graph, 1, 10);
    let indices: Vec<usize> = dependents.iter().map(|(i, _)| *i).collect();
    assert_eq!(indices, vec![2, 0]);
    assert_eq!(dependents[0].1, graph.packages[2]);
    assert_eq!(dependents[1].1, graph.packages[0]);
}

#[test]
fn dependents_are_cut_at_the_limit() {
    let graph = sample_graph();
    let dependents = collect_dependents_sorted(&graph, 1, 1);
    assert_eq!(dependents.len(), 1);
    assert_eq!(dependents[0].0, 2);
    assert!(collect_dependents_sorted(&graph, 1, 0).is_empty());
}

#[test]
fn a_package_is_not_its_own_dependent_and_unreferenced_ones_have_none() {
    let mut graph = sample_graph();
    // gamma now also depends on itself
    graph.dependencies[6] = dependency(2, 6, NO_STRING, 2, 0);
    let dependents = collect_dependents_sorted(&graph, 2, 10);
    let indices: Vec<usize> = dependents.iter().map(|(i, _)| *i).collect();
    assert_eq!(indices, vec![0]);
    let lonely = names_graph(&[("solo", 1)]);
    assert!(collect_dependents_sorted(&lonely, 0, 10).is_empty());
    assert_eq!(dependent_counts(&lonely), vec![0]);
}

#[test]
fn dependents_with_equal_keys_keep_their_positions() {
    let graph = StoredGraph {
        strings: vec!["x".to_owned()],
        packages: vec![
            package(1, 0, 7, 0, 1),
            package(1, 0, 7, 1, 1),
            package(1, 0, 7, 2, 0),
        ],
        dependencies: vec![dependency(2, 0, NO_STRING, 0, 0), dependency(2, 0, NO_STRING, 0, 0)],
    };
    let indices: Vec<usize> = collect_dependents_sorted(&graph, 2, 5).iter().map(|(i, _)| *i).collect();
    assert_eq!(indices, vec![0, 1]);
}

#[test]
fn kind_priorities_put_normal_first() {
    assert_eq!(dependency_kind_priority(DependencyKind::Normal), 0);
    assert_eq!(dependency_kind_priority(DependencyKind::Build), 1);
    assert_eq!(dependency_kind_priority(DependencyKind::Dev), 2);
    assert_eq!(dependency_kind_priority(DependencyKind::Unknown(9)), 3);
}

#[test]
fn unique_dependencies_keep_first_order_and_strongest_kind() {
    let graph = sample_graph();
    let alpha = collect_unique_dependencies(&graph, &graph.packages[0]);
    assert_eq!(
        alpha,
        vec![
            (1, DependencyKind::Build),
            (2, DependencyKind::Normal),
            (99, DependencyKind::Normal)
        ]
    );
    let gamma = collect_unique_dependencies(&graph, &graph.packages[2]);
    assert_eq!(gamma, vec![(1, DependencyKind::Normal)]);
}

#[test]
fn unique_dependencies_keep_the_first_of_equal_kinds() {
    let graph = StoredGraph {
        strings: vec!["x".to_owned()],
        packages: vec![package(1, 0, 1, 0, 3)],
        dependencies: vec![
            dependency(4, 0, NO_STRING, 9, 0),
            dependency(4, 0, NO_STRING, 7, 0),
            dependency(3, 0, NO_STRING, 1, 0),
        ],
    };
    let unique = collect_unique_dependencies(&graph, &graph.packages[0]);
    assert_eq!(unique, vec![(4, DependencyKind::Unknown(9)), (3, DependencyKind::Build)]);
}

#[test]
fn handle_opens_a_written_graph() {
    let graph = sample_graph();
    let handle = handle(&graph);
    assert_eq!(handle.package_count(), 3);
    assert_eq!(handle.dependency_count(), 7);
}

#[test]
fn handle_reports_read_errors() {
    let graph = sample_graph();
    let mut bytes = Vec::new();
    graph.write_to(&mut bytes).unwrap();
    assert!(matches!(
        GraphHandle::from_bytes(&bytes[..10]),
        Err(FormatError::UnexpectedEnd)
    ));
    let mut wrong = bytes.clone();
    wrong[0] = b'X';
    assert!(matches!(
        GraphHandle::from_bytes(&wrong),
        Err(FormatError::InvalidMagic)
    ));
}

#[test]
fn search_ranks_exact_then_prefix_then_contains() {
    let graph = names_graph(&[
        ("serde", 100),
        ("Serde", 300),
        ("serde_json", 50),
        ("myserde", 1000),
        ("tokio", 10),
        ("serde_b", 50),
        ("serde_a", 50),
    ]);
    let handle = handle(&graph);
    assert_eq!(
        handle.search_prefix(" SerDe ", 10),
        vec!["Serde", "serde_a", "serde_b", "serde_json", "myserde"]
    );
    assert_eq!(handle.search_prefix("serde", 2), vec!["Serde", "serde_a"]);
}

#[test]
fn search_answers_nothing_for_blank_query_zero_limit_or_no_match() {
    let graph = names_graph(&[("serde", 100), ("tokio", 10)]);
    let handle = handle(&graph);
    assert!(handle.search_prefix("   ", 10).is_empty());
    assert!(handle.search_prefix("serde", 0).is_empty());
    assert!(handle.search_prefix("xyz", 10).is_empty());
}

#[test]
fn search_keeps_the_first_of_equal_downloads_for_one_name() {
    let graph = names_graph(&[("Tokio", 5), ("TOKIO", 5), ("tokio", 4)]);
    let handle = handle(&graph);
    assert_eq!(handle.search_prefix("tokio", 10), vec!["Tokio"]);
}

#[test]
fn summary_lists_header_and_dependencies() {
    let graph = sample_graph();
    let handle = handle(&graph);
    assert_eq!(
        handle.crate_summary("alpha").unwrap(),
        "alpha v1.0.0\ncrate id: 10\ndownloads: 500\ndirect dependencies: 4\n\
         dependents in snapshot: 1\n- beta ^1 [dev]\n- gamma * [normal] optional target=cfg(unix)\n\
         - beta ^1 [build] default-features"
    );
    assert_eq!(
        handle.crate_summary("  BETA ").unwrap(),
        "  BETA  v1.0.0\ncrate id: 20\ndownloads: 900\ndirect dependencies: 1\n\
         dependents in snapshot: 4\n- alpha ^1 [normal] default-features"
    );
}

#[test]
fn summary_is_absent_for_unknown_or_blank_names() {
    let graph = sample_graph();
    let handle = handle(&graph);
    assert_eq!(handle.crate_summary("delta"), None);
    assert_eq!(handle.crate_summary("   "), None);
}

#[test]
fn summary_shows_twenty_dependencies_and_counts_the_rest() {
    let graph = StoredGraph {
        strings: vec!["hub".to_owned(), "leaf".to_owned(), "1.0.0".to_owned(), "^2".to_owned()],
        packages: vec![
            StoredPackage {
                crate_id: 1,
                name: 0,
                version: 2,
                downloads: 3,
                dependency_start: 0,
                dependency_count: 22,
            },
            StoredPackage {
                crate_id: 2,
                name: 1,
                version: 7,
                downloads: 4,
                dependency_start: 22,
                dependency_count: 0,
            },
        ],
        dependencies: (0..22).map(|_| dependency(1, 3, NO_STRING, 0, 0)).collect(),
    };
    let handle = handle(&graph);
    let mut expected = String::from(
        "hub v1.0.0\ncrate id: 1\ndownloads: 3\ndirect dependencies: 22\ndependents in snapshot: 0",
    );
    for _ in 0..20 {
        expected.push_str("\n- leaf ^2 [normal]");
    }
    expected.push_str("\n... 2 more");
    assert_eq!(handle.crate_summary("hub").unwrap(), expected);
    assert_eq!(
        handle.crate_summary("leaf").unwrap(),
        "leaf v<missing>\ncrate id: 2\ndownloads: 4\ndirect dependencies: 0\ndependents in snapshot: 22"
    );
}

#[test]
fn summary_line_reports_counts_or_unavailable() {
    let graph = sample_graph();
    let counts = dependent_counts(&graph);
    assert_eq!(
        dependency_summary_line(&graph, &counts, 1),
        "900 downloads \u{b7} 4 dependents \u{b7} 1 direct dependencies"
    );
    assert_eq!(
        dependency_summary_line(&graph, &counts[..1], 2),
        "500 downloads \u{b7} 0 dependents \u{b7} 2 direct dependencies"
    );
    assert_eq!(dependency_summary_line(&graph, &counts, 3), "crate data unavailable");
}

#[test]
fn stable_hash_is_fnv1a() {
    assert_eq!(stable_hash(b""), 0x811c_9dc5);
    assert_eq!(stable_hash(b"a"), 0xe40c_292c);
    assert_eq!(stable_hash(b"foobar"), 0xbf9c_f968);
}

#[test]
fn voxel_hash_mixes_each_axis() {
    assert_eq!(voxel_hash(0, 0, 0), 0);
    assert_eq!(voxel_hash(1, 0, 0), 0x9e37_79b9);
    assert_eq!(voxel_hash(0, 1, 0), 0x85eb_ca6b);
    assert_eq!(voxel_hash(-1, 0, 0), 0x61c8_8647);
    assert_eq!(voxel_hash(1, 1, 1), 0x9e37_79b9 ^ 0x85eb_ca6b ^ 0xc2b2_ae35);
}

#[test]
fn search_results_contain_the_query_once_per_name() {
    let graph = names_graph(&[
        ("Alpha", 3),
        ("alpha", 9),
        ("ALPHA-core", 2),
        ("betalpha", 7),
        ("gamma", 1),
    ]);
    let handle = handle(&graph);
    let results = handle.search_prefix("ALP", 10);
    assert_eq!(results, vec!["alpha", "ALPHA-core", "betalpha"]);
    let mut folded: Vec<String> = results.iter().map(|name| name.to_ascii_lowercase()).collect();
    for name in &folded {
        assert!(name.contains("alp"));
    }
    folded.dedup();
    assert_eq!(folded.len(), results.len());
}

#[test]
fn ranges_fit_tells_whether_every_range_lies_inside_the_list() {
    let mut graph = sample_graph();
    assert!(ranges_fit(&graph));
    graph.packages[2].dependency_count = 3;
    assert!(!ranges_fit(&graph));
    graph.packages[2].dependency_count = 2;
    graph.packages[0].dependency_start = u32::MAX;
    assert!(!ranges_fit(&graph));
}
