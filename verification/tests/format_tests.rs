use gcrates::format::{FormatError, StoredDependency, StoredGraph, StoredPackage, NO_STRING};
use gcrates::graph::{DependencyEntry, DependencyKind, PackageEntry, PackageGraph};

fn sample_graph() -> StoredGraph {
    StoredGraph {
        strings: vec![
            "tokio".to_owned(),
            "1.0.0".to_owned(),
            "^1".to_owned(),
            "cfg(unix)".to_owned(),
        ],
        packages: vec![StoredPackage {
            crate_id: 1,
            name: 0,
            version: 1,
            downloads: 42,
            dependency_start: 0,
            dependency_count: 1,
        }],
        dependencies: vec![StoredDependency {
            package_index: 0,
            req: 2,
            target: 3,
            kind: 0,
            flags: 0b11,
        }],
    }
}

#[test]
fn round_trip_graph_binary() {
    let graph = sample_graph();

    let mut bytes = Vec::new();
    graph.write_to(&mut bytes).unwrap();

    let restored = StoredGraph::read_from(&mut bytes.as_slice()).unwrap();
    assert_eq!(restored.strings, graph.strings);
    assert_eq!(restored.packages.len(), graph.packages.len());
    assert_eq!(restored.dependencies.len(), graph.dependencies.len());
    assert_eq!(restored.dependencies[0].flags, graph.dependencies[0].flags);
}

#[test]
fn round_trip_keeps_every_field_and_leaves_the_rest() {
    let graph = sample_graph();
    let mut bytes = Vec::new();
    graph.write_to(&mut bytes).unwrap();
    bytes.extend_from_slice(&[9, 8, 7]);
    let mut reader: &[u8] = bytes.as_slice();
    let restored = StoredGraph::read_from(&mut reader).unwrap();
    assert_eq!(restored.packages, graph.packages);
    assert_eq!(restored.dependencies, graph.dependencies);
    assert_eq!(reader, &[9u8, 8, 7][..]);
}

#[test]
fn encoding_has_exact_layout() {
    let graph = sample_graph();
    let mut bytes = Vec::new();
    graph.write_to(&mut bytes).unwrap();
    // magic, three counts, strings (4 + len each), one package record, one dependency record
    let strings_len: usize = graph.strings.iter().map(|s| 4 + s.len()).sum();
    assert_eq!(bytes.len(), 4 + 12 + strings_len + 28 + 16);
    assert_eq!(&bytes[0..4], b"GCR1");
    assert_eq!(&bytes[4..8], &[4, 0, 0, 0]);
    assert_eq!(&bytes[8..12], &[1, 0, 0, 0]);
    assert_eq!(&bytes[12..16], &[1, 0, 0, 0]);
    assert_eq!(&bytes[16..20], &[5, 0, 0, 0]);
    assert_eq!(&bytes[20..25], b"tokio");
    // reserved u16 after kind and flags is zero
    let n = bytes.len();
    assert_eq!(&bytes[n - 4..], &[0, 0b11, 0, 0]);
}

#[test]
fn write_appends_to_existing_bytes() {
    let graph = sample_graph();
    let mut bytes = vec![1u8, 2, 3];
    graph.write_to(&mut bytes).unwrap();
    assert_eq!(&bytes[0..3], &[1, 2, 3]);
    assert_eq!(&bytes[3..7], b"GCR1");
}

#[test]
fn read_rejects_bad_magic_and_skips_it() {
    let mut bytes = Vec::new();
    sample_graph().write_to(&mut bytes).unwrap();
    bytes[0] = b'X';
    let mut reader: &[u8] = bytes.as_slice();
    let err = StoredGraph::read_from(&mut reader).unwrap_err();
    assert_eq!(err, FormatError::InvalidMagic);
    assert_eq!(reader.len(), bytes.len() - 4);
}

#[test]
fn read_of_truncated_input_fails_and_consumes_everything() {
    let mut bytes = Vec::new();
    sample_graph().write_to(&mut bytes).unwrap();
    for cut in [0usize, 3, 10, 20, bytes.len() - 1] {
        let mut reader: &[u8] = &bytes[..cut];
        let err = StoredGraph::read_from(&mut reader).unwrap_err();
        assert_eq!(err, FormatError::UnexpectedEnd);
        assert!(reader.is_empty());
    }
}

#[test]
fn read_rejects_invalid_utf8_after_the_string() {
    let graph = StoredGraph {
        strings: vec!["ab".to_owned()],
        packages: vec![],
        dependencies: vec![],
    };
    let mut bytes = Vec::new();
    graph.write_to(&mut bytes).unwrap();
    bytes[20] = 0xff;
    bytes.push(42);
    let mut reader: &[u8] = bytes.as_slice();
    let err = StoredGraph::read_from(&mut reader).unwrap_err();
    assert_eq!(err, FormatError::InvalidUtf8);
    assert_eq!(reader, &[42u8][..]);
}

#[test]
fn resolve_and_stats() {
    let graph = sample_graph();
    assert_eq!(graph.resolve(0), Some("tokio"));
    assert_eq!(graph.resolve(3), Some("cfg(unix)"));
    assert_eq!(graph.resolve(4), None);
    assert_eq!(graph.resolve(NO_STRING), None);
    let stats = graph.stats();
    assert_eq!(stats.package_count, 1);
    assert_eq!(stats.dependency_count, 1);
}

#[test]
fn stored_dependency_flags_and_kind() {
    let dependency = StoredDependency { package_index: 0, req: 0, target: NO_STRING, kind: 1, flags: 0b10 };
    assert!(!dependency.optional());
    assert!(dependency.uses_default_features());
    assert_eq!(dependency.kind(), DependencyKind::Build);
    let other = StoredDependency { kind: 9, flags: 0b01, ..dependency };
    assert!(other.optional());
    assert!(!other.uses_default_features());
    assert_eq!(other.kind(), DependencyKind::Unknown(9));
}

fn package(crate_id: u32, name: u32, downloads: u64, count: u32) -> StoredPackage {
    StoredPackage { crate_id, name, version: 0, downloads, dependency_start: 0, dependency_count: count }
}

#[test]
fn package_by_name_ignores_case_and_surrounding_whitespace() {
    let graph = StoredGraph {
        strings: vec!["0.1.0".to_owned(), "Serde".to_owned(), "tokio".to_owned()],
        packages: vec![package(10, 1, 5, 0), package(11, 2, 7, 0)],
        dependencies: vec![],
    };
    let (index, found) = graph.package_by_name("  SERDE\t").unwrap();
    assert_eq!(index, 0);
    assert_eq!(found.crate_id, 10);
    assert_eq!(graph.package_by_name("tokio").unwrap().0, 1);
    assert!(graph.package_by_name("tok").is_none());
    assert!(graph.package_by_name("   ").is_none());
    assert!(graph.package_by_name("").is_none());
}

#[test]
fn package_by_name_prefers_downloads_then_dependencies_then_small_crate_id() {
    let strings = vec!["0.1.0".to_owned(), "dup".to_owned(), "DUP".to_owned()];
    let graph = StoredGraph {
        strings: strings.clone(),
        packages: vec![package(5, 1, 100, 1), package(3, 2, 200, 0), package(9, 1, 200, 0)],
        dependencies: vec![],
    };
    assert_eq!(graph.package_by_name("dup").unwrap().0, 1);

    let graph = StoredGraph {
        strings: strings.clone(),
        packages: vec![package(5, 1, 100, 1), package(3, 2, 100, 2)],
        dependencies: vec![],
    };
    assert_eq!(graph.package_by_name("dup").unwrap().0, 1);

    // exact ties: the last one wins
    let graph = StoredGraph {
        strings,
        packages: vec![package(4, 1, 100, 1), package(4, 2, 100, 1)],
        dependencies: vec![],
    };
    assert_eq!(graph.package_by_name("Dup").unwrap().0, 1);
}

#[test]
fn dependency_slice_gives_the_run() {
    let mut graph = sample_graph();
    graph.dependencies.push(StoredDependency { package_index: 0, req: 2, target: NO_STRING, kind: 2, flags: 0 });
    graph.packages[0].dependency_start = 1;
    let package = graph.packages[0];
    let slice = graph.dependency_slice(&package);
    assert_eq!(slice.len(), 1);
    assert_eq!(slice[0].kind, 2);
}

#[test]
fn from_package_graph_pools_each_text_once() {
    let graph = PackageGraph {
        packages: vec![
            PackageEntry {
                crate_id: 1,
                name: "a".to_owned(),
                version: "1.0.0".to_owned(),
                downloads: 3,
                dependency_start: 0,
                dependency_count: 2,
            },
            PackageEntry {
                crate_id: 2,
                name: "b".to_owned(),
                version: "1.0.0".to_owned(),
                downloads: 4,
                dependency_start: 2,
                dependency_count: 0,
            },
        ],
        dependencies: vec![
            DependencyEntry {
                package_index: 1,
                req: "^1".to_owned(),
                kind: DependencyKind::Dev,
                optional: true,
                uses_default_features: false,
                target: Some("cfg(unix)".to_owned()),
            },
            DependencyEntry {
                package_index: 1,
                req: "^1".to_owned(),
                kind: DependencyKind::Unknown(7),
                optional: false,
                uses_default_features: true,
                target: None,
            },
        ],
    };
    assert!(StoredGraph::pool_fits(&graph));
    assert!(StoredGraph::pool_fits(&PackageGraph { packages: Vec::new(), dependencies: Vec::new() }));
    let stored = StoredGraph::from_package_graph(&graph);
    assert_eq!(stored.strings, vec!["a", "1.0.0", "b", "^1", "cfg(unix)"]);
    assert_eq!(stored.packages[0].name, 0);
    assert_eq!(stored.packages[0].version, 1);
    assert_eq!(stored.packages[1].name, 2);
    assert_eq!(stored.packages[1].version, 1);
    assert_eq!(stored.packages[1].downloads, 4);
    assert_eq!(stored.packages[1].dependency_start, 2);
    assert_eq!(stored.dependencies[0], StoredDependency { package_index: 1, req: 3, target: 4, kind: 2, flags: 1 });
    assert_eq!(stored.dependencies[1], StoredDependency { package_index: 1, req: 3, target: NO_STRING, kind: 7, flags: 2 });
    assert!(stored.dependencies[0].optional());
    assert!(stored.dependencies[1].uses_default_features());
}
