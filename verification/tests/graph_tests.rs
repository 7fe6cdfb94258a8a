use gcrates::dump::{
    optional_string, parse_dump_bool, parse_u32, parse_u64, parse_u8, Column, CsvTable, DumpFile,
    GraphBuildError,
};
use gcrates::graph::{
    build_graph_from_dump, build_graph_from_tables, should_include_kind, DependencyEntry, DependencyKind,
    GraphBuildOptions,
};
use gcrates::text::{compare_text, text_equals, Order};
use gcrates::versions::{ParsedVersion, VersionCandidate};

#[test]
fn dependency_kind_matches_dump_codes() {
    assert_eq!(DependencyKind::from_code(0), DependencyKind::Normal);
    assert_eq!(DependencyKind::from_code(1), DependencyKind::Build);
    assert_eq!(DependencyKind::from_code(2), DependencyKind::Dev);
}

#[test]
fn stable_semver_beats_prerelease() {
    let stable = VersionCandidate {
        crate_id: 1,
        version_id: 2,
        version: "1.0.0".to_owned(),
        parsed_version: Some(ParsedVersion::parse("1.0.0").unwrap()),
        created_at: "2025-01-01 00:00:00+00".to_owned(),
        downloads: 10,
    };
    let prerelease = VersionCandidate {
        crate_id: 1,
        version_id: 3,
        version: "1.0.0-alpha.1".to_owned(),
        parsed_version: Some(ParsedVersion::parse("1.0.0-alpha.1").unwrap()),
        created_at: "2025-01-02 00:00:00+00".to_owned(),
        downloads: 20,
    };

    assert!(stable > prerelease);
}

fn candidate(version_id: u32, text: &str, created_at: &str, downloads: u64) -> VersionCandidate {
    VersionCandidate {
        crate_id: 1,
        version_id,
        version: text.to_owned(),
        parsed_version: ParsedVersion::parse(text),
        created_at: created_at.to_owned(),
        downloads,
    }
}

#[test]
fn candidate_order_steps() {
    // priority: stable > prerelease > not semver
    let stable = candidate(1, "0.1.0", "2020", 0);
    let pre = candidate(2, "9.0.0-rc.1", "2030", 99);
    let junk = candidate(3, "latest", "2040", 999);
    assert_eq!(stable.priority(), 2);
    assert_eq!(pre.priority(), 1);
    assert_eq!(junk.priority(), 0);
    assert_eq!(stable.compare(&pre), Order::Greater);
    assert_eq!(pre.compare(&junk), Order::Greater);
    // same priority: semver decides
    assert_eq!(candidate(1, "1.2.0", "2020", 0).compare(&candidate(2, "1.10.0", "2019", 5)), Order::Less);
    // equal semver: creation time, then downloads, then version id
    assert_eq!(candidate(1, "1.0.0", "2021", 0).compare(&candidate(2, "1.0.0", "2020", 5)), Order::Greater);
    assert_eq!(candidate(1, "1.0.0", "2020", 6).compare(&candidate(2, "1.0.0", "2020", 5)), Order::Greater);
    assert_eq!(candidate(1, "1.0.0", "2020", 5).compare(&candidate(2, "1.0.0", "2020", 5)), Order::Less);
    // neither is semver: semver step is skipped
    assert_eq!(candidate(1, "x", "2021", 0).compare(&candidate(2, "y", "2020", 0)), Order::Greater);
    assert!(candidate(7, "x", "a", 0) == candidate(7, "y", "b", 1));
}

#[test]
fn flags_pack_both_bits() {
    let entry = |optional, uses_default_features| DependencyEntry {
        package_index: 0,
        req: String::new(),
        kind: DependencyKind::Normal,
        optional,
        uses_default_features,
        target: None,
    };
    assert_eq!(entry(false, false).flags(), 0);
    assert_eq!(entry(true, false).flags(), 1);
    assert_eq!(entry(false, true).flags(), 2);
    assert_eq!(entry(true, true).flags(), 3);
}

#[test]
fn kind_codes_names_and_filters() {
    assert_eq!(DependencyKind::from_code(200), DependencyKind::Unknown(200));
    assert_eq!(DependencyKind::Unknown(5).code(), 5);
    assert_eq!(DependencyKind::Dev.code(), 2);
    assert_eq!(DependencyKind::Normal.as_str(), "normal");
    assert_eq!(DependencyKind::Build.as_str(), "build");
    assert_eq!(DependencyKind::Dev.as_str(), "dev");
    assert_eq!(DependencyKind::Unknown(3).as_str(), "unknown");
    assert_eq!(DependencyKind::from_dump_value("1"), Some(DependencyKind::Build));
    assert_eq!(DependencyKind::from_dump_value("300"), None);
    let options = GraphBuildOptions {
        include_normal_dependencies: false,
        include_build_dependencies: true,
        include_dev_dependencies: false,
        include_target_specific_dependencies: true,
    };
    assert!(!should_include_kind(DependencyKind::Normal, options));
    assert!(should_include_kind(DependencyKind::Build, options));
    assert!(!should_include_kind(DependencyKind::Dev, options));
    assert!(should_include_kind(DependencyKind::Unknown(9), options));
    let all = GraphBuildOptions::default();
    assert!(all.include_normal_dependencies && all.include_build_dependencies);
    assert!(all.include_dev_dependencies && all.include_target_specific_dependencies);
}

#[test]
fn dump_values() {
    assert_eq!(parse_dump_bool("t"), Some(true));
    assert_eq!(parse_dump_bool("f"), Some(false));
    assert_eq!(parse_dump_bool("true"), None);
    assert_eq!(parse_dump_bool(""), None);
    assert_eq!(parse_u8("255"), Some(255));
    assert_eq!(parse_u8("256"), None);
    assert_eq!(parse_u32("+42"), Some(42));
    assert_eq!(parse_u32("-1"), None);
    assert_eq!(parse_u32(" 1"), None);
    assert_eq!(parse_u64("18446744073709551615"), Some(u64::MAX));
    assert_eq!(optional_string(""), None);
    assert_eq!(optional_string("cfg(windows)"), Some("cfg(windows)".to_owned()));
    assert!(text_equals("abc", "abc"));
    assert!(!text_equals("abc", "abd"));
    assert_eq!(compare_text("abc", "abd"), Order::Less);
    assert_eq!(compare_text("ab", "a"), Order::Greater);
    assert_eq!(compare_text("Z", "a"), Order::Less);
    assert_eq!(Column::NumNoBuild.title(), "num_no_build");
}

const CRATES: &str = "id,name\n1,serde\n2,anyhow\n3,zeta\n";
const VERSIONS: &str = "\
id,crate_id,num,num_no_build,downloads,created_at,yanked
10,1,1.0.0,1.0.0,5,2020-01-01,f
11,1,2.0.0-rc.1,2.0.0-rc.1,50,2021-01-01,f
12,1,1.5.0,1.5.0,7,2020-06-01,f
13,1,3.0.0,3.0.0,9,2022-01-01,t
20,2,0.1.0,0.1.0,1,2019-01-01,f
30,3,weird,weird,2,2019-01-01,f
40,99,1.0.0,1.0.0,1,2019-01-01,f
";
const DEPENDENCIES: &str = "\
version_id,crate_id,req,kind,optional,default_features,target
12,3,^0.1,0,f,t,
12,2,^0.1,2,t,f,
12,3,=0.1,1,f,t,cfg(unix)
10,2,^1,0,f,t,
20,99,^1,0,f,t,
30,1,^1,0,f,f,
";

#[test]
fn build_graph_selects_versions_and_orders_dependencies() {
    let (graph, report) = build_graph_from_dump(
        CRATES.as_bytes(),
        VERSIONS.as_bytes(),
        DEPENDENCIES.as_bytes(),
        GraphBuildOptions::default(),
    )
    .unwrap();
    assert_eq!(report.skipped_yanked_versions, 1);
    assert_eq!(report.skipped_non_semver_versions, 1);
    assert_eq!(report.package_count, 3);
    assert_eq!(report.dependency_count, 4);
    // packages sorted by name: anyhow, serde, zeta
    let names: Vec<&str> = graph.packages.iter().map(|p| p.name.as_str()).collect();
    assert_eq!(names, vec!["anyhow", "serde", "zeta"]);
    assert_eq!(graph.packages[1].version, "1.5.0");
    assert_eq!(graph.packages[1].downloads, 7);
    assert_eq!(graph.packages[0].dependency_count, 0);
    assert_eq!(graph.packages[1].dependency_start, 0);
    assert_eq!(graph.packages[1].dependency_count, 3);
    assert_eq!(graph.packages[2].dependency_start, 3);
    assert_eq!(graph.packages[2].dependency_count, 1);
    // serde's edges: anyhow first, then the two zeta edges, the later one first
    let serde_deps = &graph.dependencies[0..3];
    assert_eq!(serde_deps[0].package_index, 0);
    assert_eq!(serde_deps[0].kind, DependencyKind::Dev);
    assert!(serde_deps[0].optional);
    assert_eq!(serde_deps[1].package_index, 2);
    assert_eq!(serde_deps[1].req, "=0.1");
    assert_eq!(serde_deps[1].target, Some("cfg(unix)".to_owned()));
    assert_eq!(serde_deps[2].req, "^0.1");
    assert_eq!(serde_deps[2].target, None);
    assert_eq!(graph.dependencies[3].package_index, 1);
    assert!(!graph.dependencies[3].uses_default_features);
}

#[test]
fn build_graph_applies_options() {
    let options = GraphBuildOptions {
        include_normal_dependencies: true,
        include_build_dependencies: true,
        include_dev_dependencies: false,
        include_target_specific_dependencies: false,
    };
    let (graph, report) =
        build_graph_from_dump(CRATES.as_bytes(), VERSIONS.as_bytes(), DEPENDENCIES.as_bytes(), options).unwrap();
    assert_eq!(report.dependency_count, 2);
    assert_eq!(graph.dependencies[0].req, "^0.1");
    assert_eq!(graph.dependencies[1].package_index, 1);
}

#[test]
fn build_graph_reports_errors() {
    let missing = build_graph_from_dump(b"id\n1\n", VERSIONS.as_bytes(), DEPENDENCIES.as_bytes(), GraphBuildOptions::default());
    assert_eq!(
        missing.unwrap_err(),
        GraphBuildError::MissingColumn { file: DumpFile::Crates, column: Column::Name }
    );
    let bad_number = build_graph_from_dump(
        b"id,name\n1,a\nx,b\n",
        VERSIONS.as_bytes(),
        DEPENDENCIES.as_bytes(),
        GraphBuildOptions::default(),
    );
    assert_eq!(
        bad_number.unwrap_err(),
        GraphBuildError::InvalidNumber { file: DumpFile::Crates, row: 1, column: Column::Id }
    );
    let bad_bool = build_graph_from_dump(
        CRATES.as_bytes(),
        b"id,crate_id,num,num_no_build,downloads,created_at,yanked\n10,1,1.0.0,1.0.0,5,2020,maybe\n",
        DEPENDENCIES.as_bytes(),
        GraphBuildOptions::default(),
    );
    assert_eq!(
        bad_bool.unwrap_err(),
        GraphBuildError::InvalidBool { file: DumpFile::Versions, row: 0, column: Column::Yanked }
    );
    let ragged = build_graph_from_dump(
        b"id,name\n1,a\n2\n",
        VERSIONS.as_bytes(),
        DEPENDENCIES.as_bytes(),
        GraphBuildOptions::default(),
    );
    assert_eq!(ragged.unwrap_err(), GraphBuildError::Csv { file: DumpFile::Crates });
}

#[test]
fn an_unreadable_header_row_is_a_csv_error() {
    // a header row that is not UTF-8 cannot be read: that is reported before any column
    let crates = build_graph_from_dump(b"id,\xff\n1,a\n", VERSIONS.as_bytes(), DEPENDENCIES.as_bytes(), GraphBuildOptions::default());
    assert_eq!(crates.unwrap_err(), GraphBuildError::Csv { file: DumpFile::Crates });
    let versions = build_graph_from_dump(CRATES.as_bytes(), b"\xff\n", DEPENDENCIES.as_bytes(), GraphBuildOptions::default());
    assert_eq!(versions.unwrap_err(), GraphBuildError::Csv { file: DumpFile::Versions });
    let dependencies = build_graph_from_dump(CRATES.as_bytes(), VERSIONS.as_bytes(), b"\xfe,\xff\n", GraphBuildOptions::default());
    assert_eq!(dependencies.unwrap_err(), GraphBuildError::Csv { file: DumpFile::Dependencies });
}

#[test]
fn a_table_whose_header_was_not_read_is_refused() {
    let row = |fields: &[&str]| fields.iter().map(|f| f.to_string()).collect::<Vec<String>>();
    let unread = CsvTable { headers_read: false, headers: Vec::new(), rows: Vec::new(), complete: false };
    let versions = CsvTable {
        headers_read: true,
        headers: row(&["id", "crate_id", "num", "num_no_build", "downloads", "created_at", "yanked"]),
        rows: Vec::new(),
        complete: true,
    };
    let result = build_graph_from_tables(&unread, &versions, &unread, GraphBuildOptions::default());
    assert_eq!(result.unwrap_err(), GraphBuildError::Csv { file: DumpFile::Crates });
}

#[test]
fn tables_can_be_given_directly() {
    let row = |fields: &[&str]| fields.iter().map(|f| f.to_string()).collect::<Vec<String>>();
    let crates = CsvTable { headers_read: true, headers: row(&["name", "id"]), rows: vec![row(&["only", "7"])], complete: true };
    let versions = CsvTable {
        headers_read: true,
        headers: row(&["id", "crate_id", "num", "num_no_build", "downloads", "created_at", "yanked"]),
        rows: vec![row(&["70", "7", "0.1.0", "0.1.0", "3", "2020", "f"])],
        complete: true,
    };
    let dependencies = CsvTable {
        headers_read: true,
        headers: row(&["version_id", "crate_id", "req", "kind", "optional", "default_features", "target"]),
        rows: vec![row(&["70", "7", "*", "0", "f", "t", ""])],
        complete: true,
    };
    let (graph, _) = build_graph_from_tables(&crates, &versions, &dependencies, GraphBuildOptions::default()).unwrap();
    assert_eq!(graph.packages.len(), 1);
    assert_eq!(graph.packages[0].name, "only");
    // a self-dependency is kept
    assert_eq!(graph.dependencies.len(), 1);
    assert_eq!(graph.dependencies[0].package_index, 0);
}

#[test]
fn wider_options_keep_every_dependency() {
    let narrow = GraphBuildOptions {
        include_normal_dependencies: true,
        include_build_dependencies: false,
        include_dev_dependencies: false,
        include_target_specific_dependencies: false,
    };
    let (small, _) =
        build_graph_from_dump(CRATES.as_bytes(), VERSIONS.as_bytes(), DEPENDENCIES.as_bytes(), narrow).unwrap();
    let (large, _) = build_graph_from_dump(
        CRATES.as_bytes(),
        VERSIONS.as_bytes(),
        DEPENDENCIES.as_bytes(),
        GraphBuildOptions::default(),
    )
    .unwrap();
    assert_eq!(small.packages.len(), large.packages.len());
    assert!(small.dependencies.len() < large.dependencies.len());
    for (p, q) in small.packages.iter().zip(large.packages.iter()) {
        assert_eq!((p.crate_id, &p.name, &p.version, p.downloads), (q.crate_id, &q.name, &q.version, q.downloads));
        let mut pool: Vec<&DependencyEntry> =
            large.dependencies[q.dependency_start as usize..(q.dependency_start + q.dependency_count) as usize]
                .iter()
                .collect();
        for d in &small.dependencies[p.dependency_start as usize..(p.dependency_start + p.dependency_count) as usize] {
            let at = pool.iter().position(|e| *e == d).expect("a kept dependency");
            pool.remove(at);
        }
    }
}
