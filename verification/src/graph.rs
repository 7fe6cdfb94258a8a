//! The package graph built from the crates.io database dump: one selected version per
//! crate, and its dependencies on other selected crates.

use vstd::hash_map::HashMapWithView;
use vstd::prelude::*;

use crate::dep_graph::{
    add_graph_edge, add_graph_node, count_below, count_of, edge_sources, graph_edges, graph_nodes,
    graph_node_count, graph_node_weight, graph_outgoing, lemma_count_below_all, lemma_outgoing_edges,
    new_graph, outgoing_edges, weights_of,
};
use crate::ranking::{outgoing_less, sort_outgoing, version_names};
use crate::text::{Order, lemma_text_order_antisymmetric, text_order};
use crate::dump::{
    Column, CsvTable, DumpFile, GraphBuildError, TableModel, optional_string, parse_u8,
    required_column,
};
use crate::dump::{csv_contents, read_csv_table};
use crate::versions::{
    SelectedVersion, SelectionModel, bool_at, bool_field, column_index, lists_selection, permutes,
    version_key_less, CandidateModel, describes,
    select_versions, selection_of, text_at, text_field, u32_at, u32_field,
};
use petgraph::graph::DiGraph;

verus! {

/// The compact graph: packages in order, each owning a contiguous run of `dependencies`.
#[derive(Debug, Clone, PartialEq, Eq)]
pub struct PackageGraph {
    pub packages: Vec<PackageEntry>,
    pub dependencies: Vec<DependencyEntry>,
}

#[derive(Debug, Clone, PartialEq, Eq)]
pub struct PackageEntry {
    pub crate_id: u32,
    pub name: String,
    pub version: String,
    pub downloads: u64,
    pub dependency_start: u32,
    pub dependency_count: u32,
}

#[derive(Debug, Clone, PartialEq, Eq)]
pub struct DependencyEntry {
    pub package_index: u32,
    pub req: String,
    pub kind: DependencyKind,
    pub optional: bool,
    pub uses_default_features: bool,
    pub target: Option<String>,
}

/// Which dependency kinds, and whether target-specific dependencies, go into the graph.
#[derive(Debug, Clone, Copy, PartialEq, Eq, Structural)]
pub struct GraphBuildOptions {
    pub include_normal_dependencies: bool,
    pub include_build_dependencies: bool,
    pub include_dev_dependencies: bool,
    pub include_target_specific_dependencies: bool,
}

impl Default for GraphBuildOptions {
    /// Everything is included.
    fn default() -> (r: Self)
        ensures
            r.include_normal_dependencies,
            r.include_build_dependencies,
            r.include_dev_dependencies,
            r.include_target_specific_dependencies,
    {
        GraphBuildOptions {
            include_normal_dependencies: true,
            include_build_dependencies: true,
            include_dev_dependencies: true,
            include_target_specific_dependencies: true,
        }
    }
}

/// The dependency kind as the dump codes it: 0 normal, 1 build, 2 dev.
#[derive(Debug, Clone, Copy, PartialEq, Eq, Structural)]
pub enum DependencyKind {
    Normal,
    Build,
    Dev,
    Unknown(u8),
}

/// The kind that a dump code stands for.
pub open spec fn kind_of_code(code: u8) -> DependencyKind {
    if code == 0 {
        DependencyKind::Normal
    } else if code == 1 {
        DependencyKind::Build
    } else if code == 2 {
        DependencyKind::Dev
    } else {
        DependencyKind::Unknown(code)
    }
}

/// The dump code of a kind.
pub open spec fn code_of_kind(kind: DependencyKind) -> u8 {
    match kind {
        DependencyKind::Normal => 0,
        DependencyKind::Build => 1,
        DependencyKind::Dev => 2,
        DependencyKind::Unknown(code) => code,
    }
}

/// A kind that `from_code` can give: `Unknown` never holds one of the three known codes.
pub open spec fn is_canonical_kind(kind: DependencyKind) -> bool {
    match kind {
        DependencyKind::Unknown(code) => code > 2,
        _ => true,
    }
}

/// The name of a kind as it is shown to users.
pub open spec fn kind_name(kind: DependencyKind) -> Seq<char> {
    match kind {
        DependencyKind::Normal => seq!['n', 'o', 'r', 'm', 'a', 'l'],
        DependencyKind::Build => seq!['b', 'u', 'i', 'l', 'd'],
        DependencyKind::Dev => seq!['d', 'e', 'v'],
        DependencyKind::Unknown(_) => seq!['u', 'n', 'k', 'n', 'o', 'w', 'n'],
    }
}

impl DependencyKind {
    pub fn from_code(code: u8) -> (r: Self)
        ensures
            r == kind_of_code(code),
    {
        match code {
            0 => DependencyKind::Normal,
            1 => DependencyKind::Build,
            2 => DependencyKind::Dev,
            other => DependencyKind::Unknown(other),
        }
    }

    pub fn code(self) -> (r: u8)
        ensures
            r == code_of_kind(self),
    {
        match self {
            DependencyKind::Normal => 0,
            DependencyKind::Build => 1,
            DependencyKind::Dev => 2,
            DependencyKind::Unknown(code) => code,
        }
    }

    pub fn as_str(self) -> (r: &'static str)
        ensures
            r@ == kind_name(self),
    {
        match self {
            DependencyKind::Normal => {
                proof {
                    reveal_strlit("normal");
                }
                "normal"
            },
            DependencyKind::Build => {
                proof {
                    reveal_strlit("build");
                }
                "build"
            },
            DependencyKind::Dev => {
                proof {
                    reveal_strlit("dev");
                }
                "dev"
            },
            DependencyKind::Unknown(_) => {
                proof {
                    reveal_strlit("unknown");
                }
                "unknown"
            },
        }
    }
}

/// Every dump code survives a trip through `DependencyKind`.
pub proof fn lemma_code_round_trip(code: u8)
    ensures
        code_of_kind(kind_of_code(code)) == code,
{
}

/// A kind that `from_code` can give survives a trip through its code; `Unknown(0)`,
/// `Unknown(1)` and `Unknown(2)` come back as the known kinds.
pub proof fn lemma_kind_round_trip(kind: DependencyKind)
    requires
        is_canonical_kind(kind),
    ensures
        kind_of_code(code_of_kind(kind)) == kind,
{
}

/// The flag byte of a dependency: bit 0 optional, bit 1 uses default features.
pub open spec fn dependency_flags(optional: bool, uses_default_features: bool) -> u8 {
    ((if optional { 1int } else { 0int }) + (if uses_default_features { 2int } else { 0int })) as u8
}

impl DependencyEntry {
    pub fn flags(&self) -> (r: u8)
        ensures
            r == dependency_flags(self.optional, self.uses_default_features),
    {
        let mut flags: u8 = 0;
        if self.optional {
            assert(0u8 | 1u8 == 1u8) by (bit_vector);
            flags = flags | 1u8;
        }
        if self.uses_default_features {
            assert(0u8 | 2u8 == 2u8 && 1u8 | 2u8 == 3u8) by (bit_vector);
            flags = flags | 2u8;
        }
        flags
    }
}

/// Whether dependencies of this kind pass the options; unknown kinds always do.
pub open spec fn kind_included(kind: DependencyKind, options: GraphBuildOptions) -> bool {
    match kind {
        DependencyKind::Normal => options.include_normal_dependencies,
        DependencyKind::Build => options.include_build_dependencies,
        DependencyKind::Dev => options.include_dev_dependencies,
        DependencyKind::Unknown(_) => true,
    }
}

pub fn should_include_kind(kind: DependencyKind, options: GraphBuildOptions) -> (r: bool)
    ensures
        r == kind_included(kind, options),
{
    match kind {
        DependencyKind::Normal => options.include_normal_dependencies,
        DependencyKind::Build => options.include_build_dependencies,
        DependencyKind::Dev => options.include_dev_dependencies,
        DependencyKind::Unknown(_) => true,
    }
}

impl DependencyKind {
    /// The kind that a dump field spells as a `u8` code; `None` when it is no `u8`.
    pub fn from_dump_value(value: &str) -> (r: Option<DependencyKind>)
        ensures
            r == (match crate::dump::dump_number(value@, u8::MAX as nat) {
                Some(n) => Some(kind_of_code(n as u8)),
                None => None,
            }),
    {
        match parse_u8(value) {
            Some(code) => Some(DependencyKind::from_code(code)),
            None => None,
        }
    }
}

// ---------------------------------------------------------------------------
// Crate names from `crates.csv`.
// ---------------------------------------------------------------------------

/// The names of `crates.csv`, by crate id; a later record of an id replaces an earlier one.
pub open spec fn crate_records(rows: Seq<Seq<Seq<char>>>, id: usize, name: usize) -> Result<
    Map<u32, Seq<char>>,
    GraphBuildError,
>
    decreases rows.len(),
{
    if rows.len() == 0 {
        Ok(Map::empty())
    } else {
        match crate_records(rows.drop_last(), id, name) {
            Err(e) => Err(e),
            Ok(names) => {
                let r = (rows.len() - 1) as usize;
                match u32_field(rows.last(), id, DumpFile::Crates, r, Column::Id) {
                    Err(e) => Err(e),
                    Ok(crate_id) => match text_field(
                        rows.last(),
                        name,
                        DumpFile::Crates,
                        r,
                        Column::Name,
                    ) {
                        Err(e) => Err(e),
                        Ok(text) => Ok(names.insert(crate_id, text)),
                    },
                }
            },
        }
    }
}

pub open spec fn crate_names_of(table: TableModel) -> Result<Map<u32, Seq<char>>, GraphBuildError> {
    if !table.headers_read {
        Err(GraphBuildError::Csv { file: DumpFile::Crates })
    } else {
        crate_names_after_header(table)
    }
}

pub open spec fn crate_names_after_header(table: TableModel) -> Result<
    Map<u32, Seq<char>>,
    GraphBuildError,
> {
    match column_index(table.headers, DumpFile::Crates, Column::Id) {
        Err(e) => Err(e),
        Ok(id) => match column_index(table.headers, DumpFile::Crates, Column::Name) {
            Err(e) => Err(e),
            Ok(name) => match crate_records(table.rows, id, name) {
                Err(e) => Err(e),
                Ok(names) => if table.complete {
                    Ok(names)
                } else {
                    Err(GraphBuildError::Csv { file: DumpFile::Crates })
                },
            },
        },
    }
}

proof fn lemma_crate_records_error_persists(
    rows: Seq<Seq<Seq<char>>>,
    k: nat,
    m: nat,
    id: usize,
    name: usize,
)
    requires
        k <= m <= rows.len(),
        crate_records(rows.take(k as int), id, name) is Err,
    ensures
        crate_records(rows.take(m as int), id, name) == crate_records(rows.take(k as int), id, name),
    decreases m,
{
    if m > k {
        lemma_crate_records_error_persists(rows, k, (m - 1) as nat, id, name);
        assert(rows.take(m as int).drop_last() =~= rows.take(m - 1));
    }
}

/// The crate names of `crates.csv`, by crate id.
pub fn load_crate_names(table: &CsvTable) -> (r: Result<HashMapWithView<u32, String>, GraphBuildError>)
    ensures
        match crate_names_of(table@) {
            Ok(names) => r matches Ok(map) && map@.map_values(|s: String| s@) == names,
            Err(e) => r is Err && r->Err_0 == e,
        },
{
    broadcast use vstd::std_specs::hash::group_hash_axioms;

    let f = DumpFile::Crates;
    if !table.headers_read {
        return Err(GraphBuildError::Csv { file: f });
    }
    let id = required_column(&table.headers, f, Column::Id)?;
    let name_index = required_column(&table.headers, f, Column::Name)?;
    let ghost rows = table@.rows;
    let mut names: HashMapWithView<u32, String> = HashMapWithView::new();
    assert(names@.map_values(|s: String| s@) =~= Map::<u32, Seq<char>>::empty());
    let mut i: usize = 0;
    while i < table.rows.len()
        invariant
            i <= rows.len(),
            f == DumpFile::Crates,
            table@.headers_read,
            rows == table@.rows,
            rows.len() == table.rows@.len(),
            column_index(table@.headers, f, Column::Id) == Ok::<usize, GraphBuildError>(id),
            column_index(table@.headers, f, Column::Name) == Ok::<usize, GraphBuildError>(
                name_index,
            ),
            crate_records(rows.take(i as int), id, name_index) == Ok::<
                Map<u32, Seq<char>>,
                GraphBuildError,
            >(names@.map_values(|s: String| s@)),
        decreases rows.len() - i,
    {
        let row = &table.rows[i];
        proof {
            assert(rows.take(i + 1).drop_last() =~= rows.take(i as int));
            assert(rows.take(i + 1).last() == row.deep_view());
        }
        let crate_id = match u32_at(row, id, f, i, Column::Id) {
            Ok(v) => v,
            Err(e) => {
                proof {
                    assert(crate_records(rows.take(i + 1), id, name_index) == Err::<
                        Map<u32, Seq<char>>,
                        GraphBuildError,
                    >(e));
                    lemma_crate_records_error_persists(rows, (i + 1) as nat, rows.len(), id, name_index);
                    assert(rows.take(rows.len() as int) =~= rows);
                }
                return Err(e);
            },
        };
        let name = match text_at(row, name_index, f, i, Column::Name) {
            Ok(v) => v,
            Err(e) => {
                proof {
                    assert(crate_records(rows.take(i + 1), id, name_index) == Err::<
                        Map<u32, Seq<char>>,
                        GraphBuildError,
                    >(e));
                    lemma_crate_records_error_persists(rows, (i + 1) as nat, rows.len(), id, name_index);
                    assert(rows.take(rows.len() as int) =~= rows);
                }
                return Err(e);
            },
        };
        let ghost before = names@.map_values(|s: String| s@);
        let owned = name.to_owned();
        names.insert(crate_id, owned);
        assert(names@.map_values(|s: String| s@) =~= before.insert(crate_id, name@));
        i = i + 1;
    }
    assert(rows.take(i as int) =~= rows);
    if !table.complete {
        return Err(GraphBuildError::Csv { file: f });
    }
    Ok(names)
}

// ---------------------------------------------------------------------------
// Dependency edges from `dependencies.csv`.
// ---------------------------------------------------------------------------

/// Positions of the columns of `dependencies.csv` that the edges are read from.
#[derive(Clone, Copy, Debug, PartialEq, Eq, Structural)]
pub struct DependencyColumns {
    pub version_id: usize,
    pub crate_id: usize,
    pub req: usize,
    pub kind: usize,
    pub optional: usize,
    pub default_features: usize,
    pub target: usize,
}

pub open spec fn dependency_columns(headers: Seq<Seq<char>>) -> Result<
    DependencyColumns,
    GraphBuildError,
> {
    let f = DumpFile::Dependencies;
    match column_index(headers, f, Column::VersionId) {
        Err(e) => Err(e),
        Ok(version_id) => match column_index(headers, f, Column::CrateId) {
            Err(e) => Err(e),
            Ok(crate_id) => match column_index(headers, f, Column::Req) {
                Err(e) => Err(e),
                Ok(req) => match column_index(headers, f, Column::Kind) {
                    Err(e) => Err(e),
                    Ok(kind) => match column_index(headers, f, Column::Optional) {
                        Err(e) => Err(e),
                        Ok(optional) => match column_index(headers, f, Column::DefaultFeatures) {
                            Err(e) => Err(e),
                            Ok(default_features) => match column_index(headers, f, Column::Target) {
                                Err(e) => Err(e),
                                Ok(target) => Ok(
                                    DependencyColumns {
                                        version_id,
                                        crate_id,
                                        req,
                                        kind,
                                        optional,
                                        default_features,
                                        target,
                                    },
                                ),
                            },
                        },
                    },
                },
            },
        },
    }
}

/// A dependency edge: its two nodes and what it records.
pub struct EdgeModel {
    pub source: u32,
    pub target_node: u32,
    pub req: Seq<char>,
    pub kind: DependencyKind,
    pub optional: bool,
    pub uses_default_features: bool,
    pub target: Option<Seq<char>>,
}

/// The node of each crate id: the position of its selected version (the last one listed).
pub open spec fn nodes_by_crate(versions: Seq<SelectedVersion>) -> Map<u32, u32>
    decreases versions.len(),
{
    if versions.len() == 0 {
        Map::empty()
    } else {
        nodes_by_crate(versions.drop_last()).insert(
            versions.last().crate_id,
            (versions.len() - 1) as u32,
        )
    }
}

/// The node of each selected version id.
pub open spec fn nodes_by_version(versions: Seq<SelectedVersion>) -> Map<u32, u32>
    decreases versions.len(),
{
    if versions.len() == 0 {
        Map::empty()
    } else {
        nodes_by_version(versions.drop_last()).insert(
            versions.last().version_id,
            (versions.len() - 1) as u32,
        )
    }
}

pub open spec fn kind_field(row: Seq<Seq<char>>, index: usize, r: usize) -> Result<
    DependencyKind,
    GraphBuildError,
> {
    match text_field(row, index, DumpFile::Dependencies, r, Column::Kind) {
        Err(e) => Err(e),
        Ok(t) => match crate::dump::dump_number(t, u8::MAX as nat) {
            Some(n) => Ok(kind_of_code(n as u8)),
            None => Err(
                GraphBuildError::InvalidNumber { file: DumpFile::Dependencies, row: r, column: Column::Kind },
            ),
        },
    }
}

/// One record of `dependencies.csv`: it becomes an edge when both its version and the crate
/// it depends on are selected, its kind is included, and it is not target-specific or
/// target-specific dependencies are included.
pub open spec fn dependency_record(
    edges: Seq<EdgeModel>,
    row: Seq<Seq<char>>,
    r: usize,
    cols: DependencyColumns,
    by_version: Map<u32, u32>,
    by_crate: Map<u32, u32>,
    options: GraphBuildOptions,
) -> Result<Seq<EdgeModel>, GraphBuildError> {
    let f = DumpFile::Dependencies;
    match u32_field(row, cols.version_id, f, r, Column::VersionId) {
        Err(e) => Err(e),
        Ok(version_id) => if !by_version.contains_key(version_id) {
            Ok(edges)
        } else {
            match u32_field(row, cols.crate_id, f, r, Column::CrateId) {
                Err(e) => Err(e),
                Ok(crate_id) => if !by_crate.contains_key(crate_id) {
                    Ok(edges)
                } else {
                    match kind_field(row, cols.kind, r) {
                        Err(e) => Err(e),
                        Ok(kind) => if !kind_included(kind, options) {
                            Ok(edges)
                        } else {
                            match text_field(row, cols.target, f, r, Column::Target) {
                                Err(e) => Err(e),
                                Ok(target_text) => {
                                    let target: Option<Seq<char>> = if target_text.len() == 0 {
                                        None
                                    } else {
                                        Some(target_text)
                                    };
                                    if target is Some && !options.include_target_specific_dependencies {
                                        Ok(edges)
                                    } else {
                                        match text_field(row, cols.req, f, r, Column::Req) {
                                            Err(e) => Err(e),
                                            Ok(req) => match bool_field(
                                                row,
                                                cols.optional,
                                                f,
                                                r,
                                                Column::Optional,
                                            ) {
                                                Err(e) => Err(e),
                                                Ok(optional) => match bool_field(
                                                    row,
                                                    cols.default_features,
                                                    f,
                                                    r,
                                                    Column::DefaultFeatures,
                                                ) {
                                                    Err(e) => Err(e),
                                                    Ok(uses_default_features) => if edges.len()
                                                        >= u32::MAX {
                                                        Err(GraphBuildError::TooLarge)
                                                    } else {
                                                        Ok(
                                                            edges.push(
                                                                EdgeModel {
                                                                    source: by_version[version_id],
                                                                    target_node: by_crate[crate_id],
                                                                    req,
                                                                    kind,
                                                                    optional,
                                                                    uses_default_features,
                                                                    target,
                                                                },
                                                            ),
                                                        )
                                                    },
                                                },
                                            },
                                        }
                                    }
                                },
                            }
                        },
                    }
                },
            }
        },
    }
}

pub open spec fn dependency_records(
    rows: Seq<Seq<Seq<char>>>,
    cols: DependencyColumns,
    by_version: Map<u32, u32>,
    by_crate: Map<u32, u32>,
    options: GraphBuildOptions,
) -> Result<Seq<EdgeModel>, GraphBuildError>
    decreases rows.len(),
{
    if rows.len() == 0 {
        Ok(Seq::empty())
    } else {
        match dependency_records(rows.drop_last(), cols, by_version, by_crate, options) {
            Err(e) => Err(e),
            Ok(edges) => dependency_record(
                edges,
                rows.last(),
                (rows.len() - 1) as usize,
                cols,
                by_version,
                by_crate,
                options,
            ),
        }
    }
}

/// The edges of the graph over the selected versions, in the order of the records.
pub open spec fn dependency_edges(
    table: TableModel,
    versions: Seq<SelectedVersion>,
    options: GraphBuildOptions,
) -> Result<Seq<EdgeModel>, GraphBuildError> {
    if !table.headers_read {
        Err(GraphBuildError::Csv { file: DumpFile::Dependencies })
    } else {
        dependency_edges_after_header(table, versions, options)
    }
}

pub open spec fn dependency_edges_after_header(
    table: TableModel,
    versions: Seq<SelectedVersion>,
    options: GraphBuildOptions,
) -> Result<Seq<EdgeModel>, GraphBuildError> {
    match dependency_columns(table.headers) {
        Err(e) => Err(e),
        Ok(cols) => match dependency_records(
            table.rows,
            cols,
            nodes_by_version(versions),
            nodes_by_crate(versions),
            options,
        ) {
            Err(e) => Err(e),
            Ok(edges) => if table.complete {
                Ok(edges)
            } else {
                Err(GraphBuildError::Csv { file: DumpFile::Dependencies })
            },
        },
    }
}

proof fn lemma_dependency_records_error_persists(
    rows: Seq<Seq<Seq<char>>>,
    k: nat,
    m: nat,
    cols: DependencyColumns,
    by_version: Map<u32, u32>,
    by_crate: Map<u32, u32>,
    options: GraphBuildOptions,
)
    requires
        k <= m <= rows.len(),
        dependency_records(rows.take(k as int), cols, by_version, by_crate, options) is Err,
    ensures
        dependency_records(rows.take(m as int), cols, by_version, by_crate, options)
            == dependency_records(rows.take(k as int), cols, by_version, by_crate, options),
    decreases m,
{
    if m > k {
        lemma_dependency_records_error_persists(rows, k, (m - 1) as nat, cols, by_version, by_crate, options);
        assert(rows.take(m as int).drop_last() =~= rows.take(m - 1));
    }
}

/// What an edge records besides its nodes.
pub struct EdgeMetadata {
    pub req: String,
    pub kind: DependencyKind,
    pub optional: bool,
    pub uses_default_features: bool,
    pub target: Option<String>,
}

/// The graph as `petgraph` holds it, with the metadata that its edge weights point to.
pub struct BuiltGraph {
    pub graph: DiGraph<u32, u32>,
    pub metadata: Vec<EdgeMetadata>,
}

impl BuiltGraph {
    /// Each edge's weight is its own position, where its metadata stands.
    pub open spec fn wf(&self) -> bool {
        &&& graph_edges(self.graph).len() == self.metadata@.len()
        &&& forall|k: int|
            0 <= k < self.metadata@.len() ==> (#[trigger] graph_edges(self.graph)[k]).2 == k as u32
    }

    /// Every edge runs between nodes below `n`.
    pub open spec fn edges_within(&self, n: nat) -> bool {
        forall|k: int|
            0 <= k < graph_edges(self.graph).len() ==> {
                &&& (#[trigger] graph_edges(self.graph)[k]).0 < n
                &&& graph_edges(self.graph)[k].1 < n
            }
    }

    /// Node `i` carries `i`, for `n` nodes.
    pub open spec fn has_nodes(&self, n: nat) -> bool {
        graph_nodes(self.graph) == Seq::new(n, |i: int| i as u32)
    }

    pub open spec fn edges(&self) -> Seq<EdgeModel> {
        Seq::new(
            self.metadata@.len(),
            |k: int|
                EdgeModel {
                    source: graph_edges(self.graph)[k].0,
                    target_node: graph_edges(self.graph)[k].1,
                    req: self.metadata@[k].req@,
                    kind: self.metadata@[k].kind,
                    optional: self.metadata@[k].optional,
                    uses_default_features: self.metadata@[k].uses_default_features,
                    target: match self.metadata@[k].target {
                        Some(t) => Some(t@),
                        None => None,
                    },
                },
        )
    }
}

/// Adds the edge that one record of `dependencies.csv` makes, if it makes one.
fn add_dependency_record(
    built: &mut BuiltGraph,
    row: &Vec<String>,
    r: usize,
    cols: DependencyColumns,
    by_version: &HashMapWithView<u32, u32>,
    by_crate: &HashMapWithView<u32, u32>,
    options: GraphBuildOptions,
    n: Ghost<nat>,
) -> (res: Result<(), GraphBuildError>)
    requires
        old(built).wf(),
        old(built).has_nodes(n@),
        old(built).edges_within(n@),
        old(built).metadata@.len() <= u32::MAX,
        forall|k: u32| #[trigger] by_version@.contains_key(k) ==> by_version@[k] < n@,
        forall|k: u32| #[trigger] by_crate@.contains_key(k) ==> by_crate@[k] < n@,
    ensures
        match dependency_record(
            old(built).edges(),
            row.deep_view(),
            r,
            cols,
            by_version@,
            by_crate@,
            options,
        ) {
            Ok(edges) => {
                &&& res is Ok
                &&& final(built).wf()
                &&& final(built).has_nodes(n@)
                &&& final(built).edges_within(n@)
                &&& final(built).edges() == edges
                &&& final(built).metadata@.len() <= u32::MAX
            },
            Err(e) => res == Err::<(), GraphBuildError>(e),
        },
{
    let f = DumpFile::Dependencies;
    let source_version_id = u32_at(row, cols.version_id, f, r, Column::VersionId)?;
    let source_node = match by_version.get(&source_version_id) {
        Some(node) => *node,
        None => return Ok(()),
    };
    let dependency_crate_id = u32_at(row, cols.crate_id, f, r, Column::CrateId)?;
    let target_node = match by_crate.get(&dependency_crate_id) {
        Some(node) => *node,
        None => return Ok(()),
    };
    let kind_text = text_at(row, cols.kind, f, r, Column::Kind)?;
    let kind = match DependencyKind::from_dump_value(kind_text) {
        Some(kind) => kind,
        None => return Err(GraphBuildError::InvalidNumber { file: f, row: r, column: Column::Kind }),
    };
    if !should_include_kind(kind, options) {
        return Ok(());
    }
    let target = optional_string(text_at(row, cols.target, f, r, Column::Target)?);
    if target.is_some() && !options.include_target_specific_dependencies {
        return Ok(());
    }
    let req = text_at(row, cols.req, f, r, Column::Req)?.to_owned();
    let optional = bool_at(row, cols.optional, f, r, Column::Optional)?;
    let uses_default_features = bool_at(row, cols.default_features, f, r, Column::DefaultFeatures)?;
    if built.metadata.len() >= 0xffff_ffffusize {
        return Err(GraphBuildError::TooLarge);
    }
    let ghost before = built.edges();
    let weight = built.metadata.len() as u32;
    add_graph_edge(&mut built.graph, source_node, target_node, weight);
    built.metadata.push(EdgeMetadata { req, kind, optional, uses_default_features, target });
    assert(built.edges() =~= before.push(built.edges().last()));
    Ok(())
}

/// The graph over the selected versions: node `i` is `versions[i]`, and the edges are
/// the dependency records that connect selected versions, in record order.
pub fn build_petgraph(
    table: &CsvTable,
    versions: &Vec<SelectedVersion>,
    options: GraphBuildOptions,
) -> (r: Result<BuiltGraph, GraphBuildError>)
    requires
        versions@.len() <= u32::MAX,
    ensures
        match dependency_edges(table@, versions@, options) {
            Ok(edges) => r matches Ok(built) && {
                &&& built.wf()
                &&& built.has_nodes(versions@.len())
                &&& built.edges_within(versions@.len())
                &&& built.edges() == edges
                &&& built.metadata@.len() <= u32::MAX
            },
            Err(e) => r == Err::<BuiltGraph, GraphBuildError>(e),
        },
{
    broadcast use vstd::std_specs::hash::group_hash_axioms;

    let ghost n = versions@.len();
    let mut built = BuiltGraph { graph: new_graph(), metadata: Vec::new() };
    let mut by_crate: HashMapWithView<u32, u32> = HashMapWithView::new();
    let mut by_version: HashMapWithView<u32, u32> = HashMapWithView::new();
    let mut i: usize = 0;
    assert(graph_nodes(built.graph) =~= Seq::new(0, |k: int| k as u32));
    while i < versions.len()
        invariant
            i <= n,
            n == versions@.len(),
            n <= u32::MAX,
            built.wf(),
            built.metadata@.len() == 0,
            built.has_nodes(i as nat),
            by_crate@ == nodes_by_crate(versions@.take(i as int)),
            by_version@ == nodes_by_version(versions@.take(i as int)),
            forall|k: u32| #[trigger] by_version@.contains_key(k) ==> by_version@[k] < i,
            forall|k: u32| #[trigger] by_crate@.contains_key(k) ==> by_crate@[k] < i,
        decreases n - i,
    {
        let version = &versions[i];
        let node = add_graph_node(&mut built.graph, i as u32);
        by_crate.insert(version.crate_id, node);
        by_version.insert(version.version_id, node);
        proof {
            assert(versions@.take(i + 1).drop_last() =~= versions@.take(i as int));
            assert(graph_nodes(built.graph) =~= Seq::new((i + 1) as nat, |k: int| k as u32));
        }
        i = i + 1;
    }
    assert(versions@.take(i as int) =~= versions@);
    assert(built.edges() =~= Seq::<EdgeModel>::empty());

    let f = DumpFile::Dependencies;
    if !table.headers_read {
        return Err(GraphBuildError::Csv { file: f });
    }
    let headers = &table.headers;
    let version_id = required_column(headers, f, Column::VersionId)?;
    let crate_id = required_column(headers, f, Column::CrateId)?;
    let req = required_column(headers, f, Column::Req)?;
    let kind = required_column(headers, f, Column::Kind)?;
    let optional = required_column(headers, f, Column::Optional)?;
    let default_features = required_column(headers, f, Column::DefaultFeatures)?;
    let target = required_column(headers, f, Column::Target)?;
    let cols = DependencyColumns {
        version_id,
        crate_id,
        req,
        kind,
        optional,
        default_features,
        target,
    };
    assert(dependency_columns(table@.headers) == Ok::<DependencyColumns, GraphBuildError>(cols));

    let ghost rows = table@.rows;
    let mut j: usize = 0;
    while j < table.rows.len()
        invariant
            j <= rows.len(),
            rows == table@.rows,
            rows.len() == table.rows@.len(),
            table@.headers_read,
            dependency_columns(table@.headers) == Ok::<DependencyColumns, GraphBuildError>(cols),
            by_crate@ == nodes_by_crate(versions@),
            by_version@ == nodes_by_version(versions@),
            forall|k: u32| #[trigger] by_version@.contains_key(k) ==> by_version@[k] < n,
            forall|k: u32| #[trigger] by_crate@.contains_key(k) ==> by_crate@[k] < n,
            n == versions@.len(),
            built.wf(),
            built.has_nodes(n),
            built.edges_within(n),
            built.metadata@.len() <= u32::MAX,
            dependency_records(rows.take(j as int), cols, by_version@, by_crate@, options) == Ok::<
                Seq<EdgeModel>,
                GraphBuildError,
            >(built.edges()),
        decreases rows.len() - j,
    {
        proof {
            assert(rows.take(j + 1).drop_last() =~= rows.take(j as int));
            assert(rows.take(j + 1).last() == table.rows@[j as int].deep_view());
        }
        match add_dependency_record(
            &mut built,
            &table.rows[j],
            j,
            cols,
            &by_version,
            &by_crate,
            options,
            Ghost(n),
        ) {
            Ok(()) => {},
            Err(e) => {
                proof {
                    assert(dependency_records(rows.take(j + 1), cols, by_version@, by_crate@, options)
                        == Err::<Seq<EdgeModel>, GraphBuildError>(e));
                    lemma_dependency_records_error_persists(
                        rows,
                        (j + 1) as nat,
                        rows.len(),
                        cols,
                        by_version@,
                        by_crate@,
                        options,
                    );
                    assert(rows.take(rows.len() as int) =~= rows);
                }
                return Err(e);
            },
        }
        j = j + 1;
    }
    assert(rows.take(j as int) =~= rows);
    if !table.complete {
        return Err(GraphBuildError::Csv { file: f });
    }
    Ok(built)
}

// ---------------------------------------------------------------------------
// The compact graph.
// ---------------------------------------------------------------------------

/// `d` is the dependency entry of edge `e`.
pub open spec fn entry_of_edge(d: DependencyEntry, e: EdgeModel) -> bool {
    &&& d.package_index == e.target_node
    &&& d.req@ == e.req
    &&& d.kind == e.kind
    &&& d.optional == e.optional
    &&& d.uses_default_features == e.uses_default_features
    &&& match (d.target, e.target) {
        (Some(x), Some(y)) => x@ == y,
        (None, None) => true,
        _ => false,
    }
}

/// `p` is the package entry of selected version `v` (its dependency run aside).
pub open spec fn entry_of_version(p: PackageEntry, v: SelectedVersion) -> bool {
    &&& p.crate_id == v.crate_id
    &&& p.name@ == v.name@
    &&& p.version@ == v.version@
    &&& p.downloads == v.downloads
}

pub open spec fn sources_of(edges: Seq<EdgeModel>) -> Seq<u32> {
    edges.map_values(|e: EdgeModel| e.source)
}

/// Within a package, edge `a` is listed before edge `b`: by the target's name, then the
/// edge added later first.
pub open spec fn edge_before(edges: Seq<EdgeModel>, names: Seq<Seq<char>>, a: int, b: int) -> bool {
    ||| text_order(names[edges[a].target_node as int], names[edges[b].target_node as int])
        == Order::Less
    ||| text_order(names[edges[a].target_node as int], names[edges[b].target_node as int])
        == Order::Equal && a > b
}

/// Slots `start .. start + count` of the dependency list hold, through `w`, the edges of
/// node `i`, ordered as `edge_before` says.
pub open spec fn run_of_node(
    edges: Seq<EdgeModel>,
    names: Seq<Seq<char>>,
    w: Seq<int>,
    i: int,
    start: int,
    count: int,
) -> bool {
    &&& forall|slot: int| start <= slot < start + count ==> edges[#[trigger] w[slot]].source == i
    &&& forall|a: int, b: int|
        start <= a < b < start + count ==> edge_before(edges, names, #[trigger] w[a], #[trigger] w[b])
}

/// `g` is the compact form of the graph over `versions` with `edges`: package `i` is
/// version `i` and owns the run of dependencies after those of the packages before it,
/// holding exactly its edges, ordered by target name and then the later-added edge first.
pub open spec fn compacts(g: PackageGraph, versions: Seq<SelectedVersion>, edges: Seq<EdgeModel>) -> bool {
    let n = versions.len();
    let packages = g.packages@;
    let dependencies = g.dependencies@;
    let names = version_names(versions);
    &&& packages.len() == n
    &&& dependencies.len() == edges.len()
    &&& forall|i: int|
        0 <= i < n ==> {
            &&& entry_of_version(#[trigger] packages[i], versions[i])
            &&& packages[i].dependency_count == count_of(sources_of(edges), i as u32)
        }
    &&& n > 0 ==> packages[0].dependency_start == 0
    &&& forall|i: int|
        0 <= i < n - 1 ==> #[trigger] packages[i + 1].dependency_start == packages[i].dependency_start
            + packages[i].dependency_count
    &&& exists|w: Seq<int>| #[trigger] laid_out(g, versions, edges, w)
}

/// Slot `s` of the dependency list of `g` holds edge `w[s]`, and each package's run holds
/// its own edges in order.
pub open spec fn laid_out(g: PackageGraph, versions: Seq<SelectedVersion>, edges: Seq<EdgeModel>, w: Seq<int>) -> bool {
    let n = versions.len();
    let packages = g.packages@;
    let dependencies = g.dependencies@;
    let names = version_names(versions);
    &&& permutes(w, edges.len())
    &&& forall|slot: int|
        0 <= slot < dependencies.len() ==> entry_of_edge(#[trigger] dependencies[slot], edges[w[slot]])
    &&& forall|i: int|
        0 <= i < n ==> run_of_node(
            edges,
            names,
            w,
            i,
            #[trigger] packages[i].dependency_start as int,
            packages[i].dependency_count as int,
        )
}

pub proof fn lemma_count_below_monotone(s: Seq<u32>, i: nat, m: nat)
    requires
        i <= m,
    ensures
        count_below(s, i) <= count_below(s, m),
    decreases m,
{
    if m > i {
        lemma_count_below_monotone(s, i, (m - 1) as nat);
    }
}

/// The edges of one node, sorted, appended to `dependencies` as entries; gives back the
/// package entry of the node and the positions of the edges in the order appended.
fn compact_node(
    built: &BuiltGraph,
    versions: &Vec<SelectedVersion>,
    node: u32,
    dependencies: &mut Vec<DependencyEntry>,
) -> (r: (PackageEntry, Ghost<Seq<int>>))
    requires
        built.wf(),
        built.has_nodes(versions@.len()),
        built.edges_within(versions@.len()),
        versions@.len() <= u32::MAX,
        built.metadata@.len() <= u32::MAX,
        (node as int) < versions@.len(),
        old(dependencies)@.len() + count_of(sources_of(built.edges()), node) <= built.metadata@.len(),
    ensures
        ({
            let edges = built.edges();
            let w = r.1@;
            let before = old(dependencies)@.len();
            &&& w.len() == count_of(sources_of(edges), node)
            &&& final(dependencies)@.len() == before + w.len()
            &&& final(dependencies)@.take(before as int) == old(dependencies)@
            &&& forall|x: int|
                0 <= x < w.len() ==> {
                    &&& 0 <= #[trigger] w[x] < edges.len()
                    &&& edges[w[x]].source == node
                    &&& entry_of_edge(final(dependencies)@[before + x], edges[w[x]])
                }
            &&& forall|x: int, y: int| 0 <= x < y < w.len() ==> #[trigger] w[x] != #[trigger] w[y]
            &&& forall|x: int, y: int|
                0 <= x < y < w.len() ==> edge_before(
                    edges,
                    version_names(versions@),
                    #[trigger] w[x],
                    #[trigger] w[y],
                )
            &&& forall|k: int| 0 <= k < edges.len() && (#[trigger] edges[k]).source == node ==> w.contains(k)
            &&& entry_of_version(r.0, versions@[node as int])
            &&& r.0.dependency_start == before
            &&& r.0.dependency_count == w.len()
        }),
{
    let ghost edges = built.edges();
    let ghost g = graph_edges(built.graph);
    let ghost names = version_names(versions@);
    let index = graph_node_weight(&built.graph, node);
    assert(index == node);
    let version = &versions[index as usize];
    let start = dependencies.len() as u32;
    let mut out = graph_outgoing(&built.graph, node);
    let ghost unsorted = out@;
    proof {
        assert forall|k: int| 0 <= k < g.len() implies (#[trigger] g[k]).2 == k as u32 by {}
        lemma_outgoing_edges(g, node);
        assert(edge_sources(g) =~= sources_of(edges));
        assert forall|i: int| 0 <= i < unsorted.len() implies ((#[trigger] unsorted[i]).0 as int)
            < versions@.len() by {
            assert(g[unsorted[i].1 as int].1 == unsorted[i].0);
        }
    }
    sort_outgoing(&mut out, versions);
    let ghost sorted = out@;
    let ghost p = choose|p: Seq<int>|
        permutes(p, unsorted.len()) && forall|i: int|
            0 <= i < unsorted.len() ==> #[trigger] sorted[i] == unsorted[p[i]];
    let ghost w = weights_of(sorted);
    proof {
        assert forall|x: int| 0 <= x < sorted.len() implies {
            let q = #[trigger] sorted[x];
            &&& (q.1 as int) < g.len()
            &&& g[q.1 as int].0 == node
            &&& g[q.1 as int].1 == q.0
        } by {
            assert(sorted[x] == unsorted[p[x]]);
        }
    }
    let ghost before = dependencies@;
    let mut x: usize = 0;
    while x < out.len()
        invariant
            x <= sorted.len(),
            out@ == sorted,
            built.wf(),
            edges == built.edges(),
            g == graph_edges(built.graph),
            dependencies@.len() == before.len() + x,
            dependencies@.take(before.len() as int) == before,
            forall|y: int| 0 <= y < sorted.len() ==> (#[trigger] sorted[y].1 as int) < g.len() && g[sorted[y].1 as int].1 == sorted[y].0,
            forall|y: int| 0 <= y < x ==> entry_of_edge(#[trigger] dependencies@[before.len() + y], edges[sorted[y].1 as int]),
        decreases sorted.len() - x,
    {
        let (target, weight) = out[x];
        let metadata = &built.metadata[weight as usize];
        let target_text = match &metadata.target {
            Some(t) => Some(t.clone()),
            None => None,
        };
        let ghost previous = dependencies@;
        dependencies.push(
            DependencyEntry {
                package_index: target,
                req: metadata.req.clone(),
                kind: metadata.kind,
                optional: metadata.optional,
                uses_default_features: metadata.uses_default_features,
                target: target_text,
            },
        );
        proof {
            assert(dependencies@.take(before.len() as int) =~= previous.take(before.len() as int));
            assert forall|y: int| 0 <= y < x + 1 implies entry_of_edge(
                #[trigger] dependencies@[before.len() + y],
                edges[sorted[y].1 as int],
            ) by {
                if y < x {
                    assert(dependencies@[before.len() + y] == previous[before.len() + y]);
                }
            }
        }
        x = x + 1;
    }
    let count = dependencies.len() as u32 - start;
    let package = PackageEntry {
        crate_id: version.crate_id,
        name: version.name.clone(),
        version: version.version.clone(),
        downloads: version.downloads,
        dependency_start: start,
        dependency_count: count,
    };
    proof {
        assert forall|a: int, b: int| 0 <= a < b < w.len() implies #[trigger] w[a] != #[trigger] w[b] by {
            assert(sorted[a] == unsorted[p[a]]);
            assert(sorted[b] == unsorted[p[b]]);
            assert(p[a] != p[b]);
        }
        assert forall|a: int, b: int| 0 <= a < b < w.len() implies edge_before(
            edges,
            names,
            #[trigger] w[a],
            #[trigger] w[b],
        ) by {
            let qa = sorted[a];
            let qb = sorted[b];
            assert(sorted[a] == unsorted[p[a]]);
            assert(sorted[b] == unsorted[p[b]]);
            assert(p[a] != p[b]);
            assert(!outgoing_less(names, qb, qa));
            assert(unsorted == outgoing_edges(g, node));
            assert(outgoing_edges(g, node)[p[a]].1 != outgoing_edges(g, node)[p[b]].1);
            assert(qa.1 != qb.1);
            crate::text::lemma_text_order_antisymmetric(
                names[qa.0 as int],
                names[qb.0 as int],
            );
            crate::text::lemma_text_order_antisymmetric(
                names[qb.0 as int],
                names[qa.0 as int],
            );
            assert(edges[w[a]].target_node == qa.0);
            assert(edges[w[b]].target_node == qb.0);
        }
        assert forall|k: int| 0 <= k < edges.len() && (#[trigger] edges[k]).source == node implies w.contains(k) by {
            assert(g[k].0 == node);
            assert(weights_of(unsorted).contains(k));
            let i = choose|i: int| 0 <= i < weights_of(unsorted).len() && weights_of(unsorted)[i] == k;
            assert(p.contains(i));
            let j = choose|j: int| 0 <= j < p.len() && p[j] == i;
            assert(sorted[j] == unsorted[i]);
            assert(w[j] == k);
        }
    }
    (package, Ghost(w))
}

/// The compact graph: package `i` for node `i`, each followed in `dependencies` by its
/// edges, ordered by target name and then the later-added edge first.
pub fn compact_graph(built: &BuiltGraph, versions: &Vec<SelectedVersion>) -> (r: PackageGraph)
    requires
        built.wf(),
        built.has_nodes(versions@.len()),
        built.edges_within(versions@.len()),
        versions@.len() <= u32::MAX,
        built.metadata@.len() <= u32::MAX,
    ensures
        compacts(r, versions@, built.edges()),
{
    let ghost edges = built.edges();
    let ghost sources = sources_of(edges);
    let ghost names = version_names(versions@);
    let ghost n = versions@.len();
    let node_count = graph_node_count(&built.graph);
    assert(node_count == n);
    let mut packages: Vec<PackageEntry> = Vec::new();
    let mut dependencies: Vec<DependencyEntry> = Vec::new();
    let ghost mut w: Seq<int> = Seq::empty();
    proof {
        assert forall|k: int| 0 <= k < sources.len() implies (#[trigger] sources[k] as nat) < n by {
            assert(graph_edges(built.graph)[k].0 == edges[k].source);
        }
        lemma_count_below_all(sources, n);
    }
    let mut node: usize = 0;
    while node < node_count
        invariant
            node <= n,
            node_count == n,
            n == versions@.len(),
            n <= u32::MAX,
            built.wf(),
            built.has_nodes(n),
            built.edges_within(n),
            built.metadata@.len() <= u32::MAX,
            edges == built.edges(),
            sources == sources_of(edges),
            names == version_names(versions@),
            count_below(sources, n) == sources.len(),
            sources.len() == edges.len(),
            packages@.len() == node,
            dependencies@.len() == count_below(sources, node as nat),
            w.len() == dependencies@.len(),
            forall|slot: int|
                0 <= slot < w.len() ==> {
                    &&& 0 <= #[trigger] w[slot] < edges.len()
                    &&& edges[w[slot]].source < node
                    &&& entry_of_edge(dependencies@[slot], edges[w[slot]])
                },
            forall|a: int, b: int| 0 <= a < b < w.len() ==> #[trigger] w[a] != #[trigger] w[b],
            forall|k: int| 0 <= k < edges.len() && (#[trigger] edges[k]).source < node ==> w.contains(k),
            forall|i: int|
                0 <= i < node ==> {
                    &&& entry_of_version(#[trigger] packages@[i], versions@[i])
                    &&& packages@[i].dependency_count == count_of(sources, i as u32)
                    &&& packages@[i].dependency_start == count_below(sources, i as nat)
                    &&& run_of_node(
                        edges,
                        names,
                        w,
                        i,
                        packages@[i].dependency_start as int,
                        packages@[i].dependency_count as int,
                    )
                },
        decreases n - node,
    {
        proof {
            lemma_count_below_monotone(sources, (node + 1) as nat, n);
        }
        let ghost before = dependencies@;
        let ghost old_w = w;
        let (package, Ghost(run)) = compact_node(built, versions, node as u32, &mut dependencies);
        proof {
            w = old_w + run;
            let base = before.len() as int;
            assert forall|slot: int| 0 <= slot < w.len() implies {
                &&& 0 <= #[trigger] w[slot] < edges.len()
                &&& edges[w[slot]].source < node + 1
                &&& entry_of_edge(dependencies@[slot], edges[w[slot]])
            } by {
                if slot < base {
                    assert(w[slot] == old_w[slot]);
                    assert(dependencies@[slot] == dependencies@.take(base)[slot]);
                } else {
                    assert(w[slot] == run[slot - base]);
                }
            }
            assert forall|a: int, b: int| 0 <= a < b < w.len() implies #[trigger] w[a] != #[trigger] w[b] by {
                if b < base {
                    assert(w[a] == old_w[a] && w[b] == old_w[b]);
                } else if a >= base {
                    assert(w[a] == run[a - base] && w[b] == run[b - base]);
                } else {
                    assert(w[a] == old_w[a] && w[b] == run[b - base]);
                    assert(edges[w[a]].source < node);
                }
            }
            assert forall|k: int| 0 <= k < edges.len() && (#[trigger] edges[k]).source < node + 1 implies w.contains(k) by {
                if edges[k].source < node {
                    let x = choose|x: int| 0 <= x < old_w.len() && old_w[x] == k;
                    assert(w[x] == k);
                } else {
                    assert(run.contains(k));
                    let x = choose|x: int| 0 <= x < run.len() && run[x] == k;
                    assert(w[base + x] == k);
                }
            }
        }
        packages.push(package);
        proof {
            let base = before.len() as int;
            assert(count_below(sources, (node + 1) as nat) == count_below(sources, node as nat)
                + count_of(sources, node as u32));
            assert forall|i: int| 0 <= i < node + 1 implies {
                &&& entry_of_version(#[trigger] packages@[i], versions@[i])
                &&& packages@[i].dependency_count == count_of(sources, i as u32)
                &&& packages@[i].dependency_start == count_below(sources, i as nat)
                &&& run_of_node(
                    edges,
                    names,
                    w,
                    i,
                    packages@[i].dependency_start as int,
                    packages@[i].dependency_count as int,
                )
            } by {
                let start = packages@[i].dependency_start as int;
                let count = packages@[i].dependency_count as int;
                if i < node {
                    assert(run_of_node(edges, names, old_w, i, start, count));
                    lemma_count_below_monotone(sources, (i + 1) as nat, node as nat);
                    assert(start + count <= base);
                    assert forall|slot: int| start <= slot < start + count implies edges[#[trigger] w[slot]].source == i by {
                        assert(w[slot] == old_w[slot]);
                    }
                    assert forall|a: int, b: int| start <= a < b < start + count implies edge_before(edges, names, #[trigger] w[a], #[trigger] w[b]) by {
                        assert(w[a] == old_w[a] && w[b] == old_w[b]);
                    }
                } else {
                    assert(start == base);
                    assert forall|slot: int| start <= slot < start + count implies edges[#[trigger] w[slot]].source == i by {
                        assert(w[slot] == run[slot - base]);
                    }
                    assert forall|a: int, b: int| start <= a < b < start + count implies edge_before(edges, names, #[trigger] w[a], #[trigger] w[b]) by {
                        assert(w[a] == run[a - base] && w[b] == run[b - base]);
                    }
                }
            }
        }
        node = node + 1;
    }
    let graph = PackageGraph { packages, dependencies };
    proof {
        assert(w.len() == edges.len());
        assert forall|k: int| 0 <= k < edges.len() implies #[trigger] w.contains(k) by {
            assert(graph_edges(built.graph)[k].0 == edges[k].source);
        }
        assert(permutes(w, edges.len()));
        assert forall|i: int| 0 <= i < n - 1 implies #[trigger] graph.packages@[i + 1].dependency_start
            == graph.packages@[i].dependency_start + graph.packages@[i].dependency_count by {
            assert(count_below(sources, (i + 1) as nat) == count_below(sources, i as nat) + count_of(sources, i as u32));
        }
        assert forall|i: int| 0 <= i < n implies run_of_node(
            edges,
            names,
            w,
            i,
            #[trigger] graph.packages@[i].dependency_start as int,
            graph.packages@[i].dependency_count as int,
        ) by {}
        assert(laid_out(graph, versions@, edges, w));
    }
    graph
}

// ---------------------------------------------------------------------------
// The whole build.
// ---------------------------------------------------------------------------

/// Counts reported after a build.
#[derive(Debug, Clone, Copy, PartialEq, Eq, Structural)]
pub struct BuildReport {
    pub package_count: usize,
    pub dependency_count: usize,
    pub skipped_yanked_versions: usize,
    pub skipped_non_semver_versions: usize,
}

/// What a build from the three tables gives: the error of the first step that fails, or
/// the compact graph over the selected versions with its counts. The build refuses, with
/// `TooLarge`, a dump with more than `u32::MAX` selected versions, and stops with it at
/// the dependency record that would make the edge count exceed `u32::MAX` (the limits of
/// the graph's `u32` indices).
pub open spec fn builds(
    r: Result<(PackageGraph, BuildReport), GraphBuildError>,
    crates: TableModel,
    versions: TableModel,
    dependencies: TableModel,
    options: GraphBuildOptions,
) -> bool {
    match crate_names_of(crates) {
        Err(e) => r == Err::<(PackageGraph, BuildReport), GraphBuildError>(e),
        Ok(names) => match selection_of(versions, names.dom()) {
            Err(e) => r == Err::<(PackageGraph, BuildReport), GraphBuildError>(e),
            Ok(state) => exists|selected: Seq<SelectedVersion>|
                {
                    &&& lists_selection(selected, state.selected, names)
                    &&& builds_over(r, selected, state, dependencies, options)
                },
        },
    }
}

pub open spec fn builds_over(
    r: Result<(PackageGraph, BuildReport), GraphBuildError>,
    selected: Seq<SelectedVersion>,
    state: SelectionModel,
    dependencies: TableModel,
    options: GraphBuildOptions,
) -> bool {
    if selected.len() > u32::MAX {
        r == Err::<(PackageGraph, BuildReport), GraphBuildError>(GraphBuildError::TooLarge)
    } else {
        match dependency_edges(dependencies, selected, options) {
            Err(e) => r == Err::<(PackageGraph, BuildReport), GraphBuildError>(e),
            Ok(edges) => r matches Ok((graph, report)) && {
                &&& compacts(graph, selected, edges)
                &&& report.package_count == selected.len()
                &&& report.dependency_count == edges.len()
                &&& report.skipped_yanked_versions == state.yanked
                &&& report.skipped_non_semver_versions == state.non_semver
            },
        }
    }
}

/// Builds the compact graph from the three tables of the dump.
pub fn build_graph_from_tables(
    crates: &CsvTable,
    versions: &CsvTable,
    dependencies: &CsvTable,
    options: GraphBuildOptions,
) -> (r: Result<(PackageGraph, BuildReport), GraphBuildError>)
    ensures
        builds(r, crates@, versions@, dependencies@, options),
{
    let crate_names = load_crate_names(crates)?;
    let ghost names = crate_names@.map_values(|s: String| s@);
    assert(names.dom() =~= crate_names@.dom());
    let (selected, skipped_yanked_versions, skipped_non_semver_versions) = select_versions(
        versions,
        &crate_names,
    )?;
    let ghost state = selection_of(versions@, names.dom())->Ok_0;
    assert(lists_selection(selected@, state.selected, names));
    if selected.len() > 0xffff_ffffusize {
        return Err(GraphBuildError::TooLarge);
    }
    let built = build_petgraph(dependencies, &selected, options)?;
    let graph = compact_graph(&built, &selected);
    let report = BuildReport {
        package_count: graph.packages.len(),
        dependency_count: graph.dependencies.len(),
        skipped_yanked_versions,
        skipped_non_semver_versions,
    };
    Ok((graph, report))
}

/// Builds the compact graph from the contents of `crates.csv`, `versions.csv` and
/// `dependencies.csv`, as the `csv` crate reads them.
pub fn build_graph_from_dump(
    crates_csv: &[u8],
    versions_csv: &[u8],
    dependencies_csv: &[u8],
    options: GraphBuildOptions,
) -> (r: Result<(PackageGraph, BuildReport), GraphBuildError>)
    ensures
        builds(
            r,
            csv_contents(crates_csv@),
            csv_contents(versions_csv@),
            csv_contents(dependencies_csv@),
            options,
        ),
{
    let crates = read_csv_table(crates_csv);
    let versions = read_csv_table(versions_csv);
    let dependencies = read_csv_table(dependencies_csv);
    build_graph_from_tables(&crates, &versions, &dependencies, options)
}

proof fn lemma_count_below_at_most_len(s: Seq<u32>, n: nat)
    requires
        n <= u32::MAX,
    ensures
        count_below(s, n) <= s.len(),
    decreases s.len(),
{
    if s.len() > 0 {
        lemma_count_below_at_most_len(s.drop_last(), n);
        crate::dep_graph::lemma_count_below_step(s, n);
    } else {
        crate::dep_graph::lemma_count_below_empty(s, n);
    }
}

/// In a compact graph each package's run starts after the runs of the packages before it
/// and lies within the dependency list, so `dependency_slice` can always be taken.
pub proof fn lemma_compact_runs_within(g: PackageGraph, versions: Seq<SelectedVersion>, edges: Seq<EdgeModel>)
    requires
        compacts(g, versions, edges),
        versions.len() <= u32::MAX,
    ensures
        forall|i: int|
            0 <= i < versions.len() ==> {
                &&& #[trigger] g.packages@[i].dependency_start == count_below(sources_of(edges), i as nat)
                &&& g.packages@[i].dependency_start + g.packages@[i].dependency_count <= g.dependencies@.len()
            },
{
    let n = versions.len();
    let sources = sources_of(edges);
    assert forall|i: int| 0 <= i < n implies #[trigger] g.packages@[i].dependency_start
        == count_below(sources, i as nat) by {
        lemma_compact_start(g, versions, edges, i);
    }
    assert forall|i: int| 0 <= i < n implies g.packages@[i].dependency_start
        + g.packages@[i].dependency_count <= g.dependencies@.len() by {
        lemma_compact_start(g, versions, edges, i);
        lemma_count_below_monotone(sources, (i + 1) as nat, n);
        lemma_count_below_at_most_len(sources, n);
    }
}

proof fn lemma_compact_start(g: PackageGraph, versions: Seq<SelectedVersion>, edges: Seq<EdgeModel>, i: int)
    requires
        compacts(g, versions, edges),
        versions.len() <= u32::MAX,
        0 <= i < versions.len(),
    ensures
        g.packages@[i].dependency_start == count_below(sources_of(edges), i as nat),
    decreases i,
{
    if i > 0 {
        lemma_compact_start(g, versions, edges, i - 1);
        assert(g.packages@[(i - 1) + 1].dependency_start == g.packages@[i - 1].dependency_start
            + g.packages@[i - 1].dependency_count);
    }
}


// ---------------------------------------------------------------------------
// Wider options only add dependencies.
// ---------------------------------------------------------------------------

/// Every dependency kind that `narrow` includes, `wide` includes too, and so for
/// target-specific dependencies.
pub open spec fn includes_at_least(wide: GraphBuildOptions, narrow: GraphBuildOptions) -> bool {
    &&& narrow.include_normal_dependencies ==> wide.include_normal_dependencies
    &&& narrow.include_build_dependencies ==> wide.include_build_dependencies
    &&& narrow.include_dev_dependencies ==> wide.include_dev_dependencies
    &&& narrow.include_target_specific_dependencies ==> wide.include_target_specific_dependencies
}

/// The two package entries describe the same version (their dependency runs aside).
pub open spec fn same_package(a: PackageEntry, b: PackageEntry) -> bool {
    &&& a.crate_id == b.crate_id
    &&& a.name@ == b.name@
    &&& a.version@ == b.version@
    &&& a.downloads == b.downloads
}

/// The two dependency entries are equal.
pub open spec fn same_dependency(a: DependencyEntry, b: DependencyEntry) -> bool {
    &&& a.package_index == b.package_index
    &&& a.req@ == b.req@
    &&& a.kind == b.kind
    &&& a.optional == b.optional
    &&& a.uses_default_features == b.uses_default_features
    &&& match (a.target, b.target) {
        (Some(x), Some(y)) => x@ == y@,
        (None, None) => true,
        _ => false,
    }
}

/// `f` takes the dependencies of package `i` in `small`, one to one, to equal dependencies
/// of package `i` in `large`.
pub open spec fn run_embedding(small: PackageGraph, large: PackageGraph, i: int, f: Seq<int>) -> bool {
    let p = small.packages@[i];
    let q = large.packages@[i];
    &&& f.len() == p.dependency_count
    &&& forall|s: int|
        0 <= s < f.len() ==> {
            &&& q.dependency_start <= #[trigger] f[s] < q.dependency_start + q.dependency_count
            &&& same_dependency(small.dependencies@[p.dependency_start + s], large.dependencies@[f[s]])
        }
    &&& forall|s: int, t: int| 0 <= s < f.len() && 0 <= t < f.len() && s != t ==> #[trigger] f[s] != #[trigger] f[t]
}

/// `large` has the packages of `small` in the same order, and each package's dependencies
/// in `small` are among its dependencies in `large`, counted with their repetitions.
pub open spec fn keeps_dependencies(small: PackageGraph, large: PackageGraph) -> bool {
    &&& small.packages@.len() == large.packages@.len()
    &&& forall|i: int|
        0 <= i < small.packages@.len() ==> same_package(#[trigger] small.packages@[i], large.packages@[i])
    &&& forall|i: int| 0 <= i < small.packages@.len() ==> #[trigger] keeps_run(small, large, i)
}

/// Each dependency of package `i` in `small` is matched by an equal dependency of package
/// `i` in `large`, each by one of its own.
pub open spec fn keeps_run(small: PackageGraph, large: PackageGraph, i: int) -> bool {
    exists|f: Seq<int>| #[trigger] run_embedding(small, large, i, f)
}

/// Including more dependency kinds, or target-specific dependencies, only adds
/// dependencies: when two builds of the same dump succeed, the one with the wider options
/// has the same packages in the same order, and each package keeps every dependency that
/// the narrower build gave it.
pub proof fn lemma_wider_options_keep_dependencies(
    crates: TableModel,
    versions: TableModel,
    dependencies: TableModel,
    narrow: GraphBuildOptions,
    wide: GraphBuildOptions,
    small: Result<(PackageGraph, BuildReport), GraphBuildError>,
    large: Result<(PackageGraph, BuildReport), GraphBuildError>,
)
    requires
        includes_at_least(wide, narrow),
        builds(small, crates, versions, dependencies, narrow),
        builds(large, crates, versions, dependencies, wide),
        small is Ok,
        large is Ok,
    ensures
        keeps_dependencies(small->Ok_0.0, large->Ok_0.0),
{
    let names = crate_names_of(crates)->Ok_0;
    let state = selection_of(versions, names.dom())->Ok_0;
    let s1 = choose|sel: Seq<SelectedVersion>|
        {
            &&& lists_selection(sel, state.selected, names)
            &&& builds_over(small, sel, state, dependencies, narrow)
        };
    let s2 = choose|sel: Seq<SelectedVersion>|
        {
            &&& lists_selection(sel, state.selected, names)
            &&& builds_over(large, sel, state, dependencies, wide)
        };
    lemma_selection_unique(s1, s2, state.selected, names);
    let n = s1.len();
    assert(n <= u32::MAX);
    lemma_same_nodes(s1, s2);
    lemma_nodes_below(s1);
    let g1 = small->Ok_0.0;
    let g2 = large->Ok_0.0;
    let e1 = dependency_edges(dependencies, s1, narrow)->Ok_0;
    let e2 = dependency_edges(dependencies, s2, wide)->Ok_0;
    assert(dependency_edges(dependencies, s2, wide) == dependency_edges(dependencies, s1, wide));
    let cols = dependency_columns(dependencies.headers)->Ok_0;
    let m = lemma_records_embed(
        dependencies.rows,
        cols,
        nodes_by_version(s1),
        nodes_by_crate(s1),
        narrow,
        wide,
        n,
    );
    assert(compacts(g1, s1, e1));
    assert(compacts(g2, s2, e2));
    assert forall|i: int| 0 <= i < g1.packages@.len() implies same_package(
        #[trigger] g1.packages@[i],
        g2.packages@[i],
    ) by {
        let k = s1[i].crate_id;
        assert(describes(s1[i], state.selected[k], names[k]));
        assert(describes(s2[i], state.selected[k], names[k]));
    }
    assert forall|i: int| 0 <= i < g1.packages@.len() implies #[trigger] keeps_run(g1, g2, i) by {
        let f = lemma_run_embedding(g1, g2, s1, s2, e1, e2, m, i);
        assert(run_embedding(g1, g2, i, f));
    }
    assert(keeps_dependencies(g1, g2));
}

/// Both sequences list the same selection, so they agree position by position.
proof fn lemma_selection_unique(
    s1: Seq<SelectedVersion>,
    s2: Seq<SelectedVersion>,
    selected: Map<u32, CandidateModel>,
    names: Map<u32, Seq<char>>,
)
    requires
        lists_selection(s1, selected, names),
        lists_selection(s2, selected, names),
    ensures
        s1.len() == s2.len(),
        forall|i: int|
            0 <= i < s1.len() ==> {
                &&& (#[trigger] s1[i]).crate_id == s2[i].crate_id
                &&& s1[i].version_id == s2[i].version_id
                &&& s1[i].name@ == s2[i].name@
                &&& s1[i].version@ == s2[i].version@
                &&& s1[i].downloads == s2[i].downloads
            },
{
    let len = if s1.len() < s2.len() {
        s1.len()
    } else {
        s2.len()
    };
    if len > 0 {
        lemma_selection_prefix(s1, s2, selected, names, (len - 1) as nat);
    }
    if s1.len() > s2.len() {
        let k = s1[s2.len() as int].crate_id;
        assert(selected.contains_key(k));
        let j = choose|j: int| 0 <= j < s2.len() && (#[trigger] s2[j]).crate_id == k;
        assert(s1[j].crate_id == k);
        assert(false);
    }
    if s2.len() > s1.len() {
        let k = s2[s1.len() as int].crate_id;
        assert(selected.contains_key(k));
        let j = choose|j: int| 0 <= j < s1.len() && (#[trigger] s1[j]).crate_id == k;
        assert(s2[j].crate_id == k);
        assert(false);
    }
    assert forall|i: int| 0 <= i < s1.len() implies {
        &&& (#[trigger] s1[i]).crate_id == s2[i].crate_id
        &&& s1[i].version_id == s2[i].version_id
        &&& s1[i].name@ == s2[i].name@
        &&& s1[i].version@ == s2[i].version@
        &&& s1[i].downloads == s2[i].downloads
    } by {
        let k = s1[i].crate_id;
        assert(describes(s1[i], selected[k], names[k]));
        assert(describes(s2[i], selected[k], names[k]));
    }
}

proof fn lemma_selection_prefix(
    s1: Seq<SelectedVersion>,
    s2: Seq<SelectedVersion>,
    selected: Map<u32, CandidateModel>,
    names: Map<u32, Seq<char>>,
    last: nat,
)
    requires
        lists_selection(s1, selected, names),
        lists_selection(s2, selected, names),
        last < s1.len(),
        last < s2.len(),
    ensures
        forall|i: int| 0 <= i <= last ==> (#[trigger] s1[i]).crate_id == s2[i].crate_id,
    decreases last,
{
    if last > 0 {
        lemma_selection_prefix(s1, s2, selected, names, (last - 1) as nat);
    }
    let i = last as int;
    let k1 = s1[i].crate_id;
    let k2 = s2[i].crate_id;
    assert(selected.contains_key(k1));
    assert(selected.contains_key(k2));
    let j2 = choose|j: int| 0 <= j < s2.len() && (#[trigger] s2[j]).crate_id == k1;
    let j1 = choose|j: int| 0 <= j < s1.len() && (#[trigger] s1[j]).crate_id == k2;
    if k1 != k2 {
        if j2 < i {
            assert(s1[j2].crate_id == k1);
            assert(false);
        }
        if j1 < i {
            assert(s2[j1].crate_id == k2);
            assert(false);
        }
        assert(i < j1 && i < j2);
        assert(!version_key_less(s1[j1], s1[i]));
        assert(!version_key_less(s2[j2], s2[i]));
        assert(describes(s1[i], selected[k1], names[k1]));
        assert(describes(s2[j2], selected[k1], names[k1]));
        assert(describes(s1[j1], selected[k2], names[k2]));
        assert(describes(s2[i], selected[k2], names[k2]));
        let a = names[k1];
        let b = names[k2];
        assert(s1[i].name@ == a && s2[j2].name@ == a && s1[j1].name@ == b && s2[i].name@ == b);
        lemma_text_order_antisymmetric(a, b);
        lemma_text_order_antisymmetric(b, a);
        if text_order(a, b) == Order::Less {
            assert(version_key_less(s2[j2], s2[i]));
        } else if text_order(a, b) == Order::Equal {
            assert(a == b);
            if k1 < k2 {
                assert(version_key_less(s2[j2], s2[i]));
            } else {
                assert(version_key_less(s1[j1], s1[i]));
            }
        } else {
            assert(text_order(b, a) == Order::Less);
            assert(version_key_less(s1[j1], s1[i]));
        }
    }
}

/// Sequences that agree on their ids give the same nodes.
proof fn lemma_same_nodes(s1: Seq<SelectedVersion>, s2: Seq<SelectedVersion>)
    requires
        s1.len() == s2.len(),
        forall|i: int|
            0 <= i < s1.len() ==> (#[trigger] s1[i]).crate_id == s2[i].crate_id && s1[i].version_id
                == s2[i].version_id,
    ensures
        nodes_by_version(s1) == nodes_by_version(s2),
        nodes_by_crate(s1) == nodes_by_crate(s2),
    decreases s1.len(),
{
    if s1.len() > 0 {
        let a = s1.drop_last();
        let b = s2.drop_last();
        assert forall|i: int| 0 <= i < a.len() implies (#[trigger] a[i]).crate_id == b[i].crate_id
            && a[i].version_id == b[i].version_id by {
            assert(a[i] == s1[i] && b[i] == s2[i]);
        }
        lemma_same_nodes(a, b);
        assert(s1.last() == s1[s1.len() - 1]);
        assert(s2.last() == s2[s2.len() - 1]);
    }
}

/// Every node of a version id lies below the number of versions.
proof fn lemma_nodes_below(s: Seq<SelectedVersion>)
    requires
        s.len() <= u32::MAX,
    ensures
        forall|k: u32| #[trigger] nodes_by_version(s).contains_key(k) ==> nodes_by_version(s)[k] < s.len(),
    decreases s.len(),
{
    if s.len() > 0 {
        let prev = s.drop_last();
        lemma_nodes_below(prev);
        assert forall|k: u32| #[trigger] nodes_by_version(s).contains_key(k) implies nodes_by_version(s)[k]
            < s.len() by {
            if k != s.last().version_id {
                assert(nodes_by_version(prev).contains_key(k));
            }
        }
    }
}

/// `e1` keeps its order inside `e2`: `m` takes it, strictly increasing, into `e2`.
pub open spec fn embeds(e1: Seq<EdgeModel>, e2: Seq<EdgeModel>, m: Seq<int>) -> bool {
    &&& m.len() == e1.len()
    &&& forall|k: int| 0 <= k < e1.len() ==> 0 <= #[trigger] m[k] < e2.len() && e2[m[k]] == e1[k]
    &&& forall|a: int, b: int| 0 <= a < b < e1.len() ==> #[trigger] m[a] < #[trigger] m[b]
}

proof fn lemma_records_embed(
    rows: Seq<Seq<Seq<char>>>,
    cols: DependencyColumns,
    by_version: Map<u32, u32>,
    by_crate: Map<u32, u32>,
    narrow: GraphBuildOptions,
    wide: GraphBuildOptions,
    n: nat,
) -> (m: Seq<int>)
    requires
        includes_at_least(wide, narrow),
        dependency_records(rows, cols, by_version, by_crate, narrow) is Ok,
        dependency_records(rows, cols, by_version, by_crate, wide) is Ok,
        forall|k: u32| #[trigger] by_version.contains_key(k) ==> by_version[k] < n,
    ensures
        embeds(
            dependency_records(rows, cols, by_version, by_crate, narrow)->Ok_0,
            dependency_records(rows, cols, by_version, by_crate, wide)->Ok_0,
            m,
        ),
        forall|k: int|
            0 <= k < (dependency_records(rows, cols, by_version, by_crate, wide)->Ok_0).len()
                ==> (#[trigger] (dependency_records(rows, cols, by_version, by_crate, wide)->Ok_0)[k]).source < n,
    decreases rows.len(),
{
    if rows.len() == 0 {
        Seq::empty()
    } else {
        let m0 = lemma_records_embed(rows.drop_last(), cols, by_version, by_crate, narrow, wide, n);
        let e1 = dependency_records(rows.drop_last(), cols, by_version, by_crate, narrow)->Ok_0;
        let e2 = dependency_records(rows.drop_last(), cols, by_version, by_crate, wide)->Ok_0;
        lemma_record_embed(e1, e2, m0, rows.last(), (rows.len() - 1) as usize, cols, by_version, by_crate, narrow, wide, n)
    }
}

proof fn lemma_record_embed(
    e1: Seq<EdgeModel>,
    e2: Seq<EdgeModel>,
    m0: Seq<int>,
    row: Seq<Seq<char>>,
    r: usize,
    cols: DependencyColumns,
    by_version: Map<u32, u32>,
    by_crate: Map<u32, u32>,
    narrow: GraphBuildOptions,
    wide: GraphBuildOptions,
    n: nat,
) -> (m: Seq<int>)
    requires
        includes_at_least(wide, narrow),
        embeds(e1, e2, m0),
        forall|k: int| 0 <= k < e2.len() ==> (#[trigger] e2[k]).source < n,
        dependency_record(e1, row, r, cols, by_version, by_crate, narrow) is Ok,
        dependency_record(e2, row, r, cols, by_version, by_crate, wide) is Ok,
        forall|k: u32| #[trigger] by_version.contains_key(k) ==> by_version[k] < n,
    ensures
        embeds(
            dependency_record(e1, row, r, cols, by_version, by_crate, narrow)->Ok_0,
            dependency_record(e2, row, r, cols, by_version, by_crate, wide)->Ok_0,
            m,
        ),
        forall|k: int|
            0 <= k < (dependency_record(e2, row, r, cols, by_version, by_crate, wide)->Ok_0).len()
                ==> (#[trigger] (dependency_record(e2, row, r, cols, by_version, by_crate, wide)->Ok_0)[k]).source < n,
{
    let x1 = dependency_record(e1, row, r, cols, by_version, by_crate, narrow)->Ok_0;
    let x2 = dependency_record(e2, row, r, cols, by_version, by_crate, wide)->Ok_0;
    assert(x1 == e1 || (x1.len() == e1.len() + 1 && x1.drop_last() == e1));
    assert(x2 == e2 || (x2.len() == e2.len() + 1 && x2.drop_last() == e2 && x2.last().source < n));
    if x1 == e1 {
        assert forall|k: int| 0 <= k < x2.len() implies (#[trigger] x2[k]).source < n by {
            if k < e2.len() {
                assert(x2[k] == e2[k]);
            }
        }
        assert forall|k: int| 0 <= k < e1.len() implies 0 <= #[trigger] m0[k] < x2.len() && x2[m0[k]] == e1[k] by {
            if x2 != e2 {
                assert(x2[m0[k]] == x2.drop_last()[m0[k]]);
            }
        }
        m0
    } else {
        assert(x2 != e2 && x2.last() == x1.last());
        let m = m0.push(e2.len() as int);
        assert forall|k: int| 0 <= k < x2.len() implies (#[trigger] x2[k]).source < n by {
            if k < e2.len() {
                assert(x2[k] == e2[k]);
            }
        }
        assert forall|k: int| 0 <= k < x1.len() implies 0 <= #[trigger] m[k] < x2.len() && x2[m[k]] == x1[k] by {
            if k < e1.len() {
                assert(m[k] == m0[k]);
                assert(x1[k] == e1[k]);
                assert(x2[m0[k]] == x2.drop_last()[m0[k]]);
            }
        }
        assert forall|a: int, b: int| 0 <= a < b < x1.len() implies #[trigger] m[a] < #[trigger] m[b] by {
            assert(m[a] == m0[a]);
            if b < e1.len() {
                assert(m[b] == m0[b]);
            }
        }
        m
    }
}

/// The slot of edge `k` in `w`.
spec fn slot_of(w: Seq<int>, k: int) -> int {
    choose|slot: int| 0 <= slot < w.len() && w[slot] == k
}

/// A slot of the dependency list lies in the run of the package its edge comes from.
proof fn lemma_find_run(
    g: PackageGraph,
    versions: Seq<SelectedVersion>,
    edges: Seq<EdgeModel>,
    w: Seq<int>,
    slot: int,
    j: int,
)
    requires
        compacts(g, versions, edges),
        laid_out(g, versions, edges, w),
        versions.len() <= u32::MAX,
        forall|k: int| 0 <= k < edges.len() ==> (#[trigger] edges[k]).source < versions.len(),
        0 <= j < versions.len(),
        g.packages@[j].dependency_start <= slot < edges.len(),
    ensures
        g.packages@[edges[w[slot]].source as int].dependency_start <= slot < g.packages@[edges[w[slot]].source as int].dependency_start
            + g.packages@[edges[w[slot]].source as int].dependency_count,
    decreases versions.len() - j,
{
    let n = versions.len();
    let p = g.packages@[j];
    if slot < p.dependency_start + p.dependency_count {
        assert(run_of_node(edges, version_names(versions), w, j, p.dependency_start as int, p.dependency_count as int));
    } else if j + 1 < n {
        assert(g.packages@[j + 1].dependency_start == p.dependency_start + p.dependency_count);
        lemma_find_run(g, versions, edges, w, slot, j + 1);
    } else {
        let sources = sources_of(edges);
        lemma_compact_start(g, versions, edges, j);
        assert forall|k: int| 0 <= k < sources.len() implies (#[trigger] sources[k] as nat) < n by {
            assert(sources[k] == edges[k].source);
        }
        lemma_count_below_all(sources, n);
        assert(count_below(sources, n) == count_below(sources, (n - 1) as nat) + count_of(sources, (n - 1) as u32));
        assert(false);
    }
}

/// Package `i` of the narrower build finds each of its dependencies again in the wider
/// build, each in a slot of its own.
proof fn lemma_run_embedding(
    g1: PackageGraph,
    g2: PackageGraph,
    s1: Seq<SelectedVersion>,
    s2: Seq<SelectedVersion>,
    e1: Seq<EdgeModel>,
    e2: Seq<EdgeModel>,
    m: Seq<int>,
    i: int,
) -> (f: Seq<int>)
    requires
        compacts(g1, s1, e1),
        compacts(g2, s2, e2),
        embeds(e1, e2, m),
        s1.len() == s2.len(),
        s1.len() <= u32::MAX,
        forall|k: int| 0 <= k < e2.len() ==> (#[trigger] e2[k]).source < s1.len(),
        0 <= i < s1.len(),
    ensures
        run_embedding(g1, g2, i, f),
{
    let w1 = choose|w: Seq<int>| laid_out(g1, s1, e1, w);
    let w2 = choose|w: Seq<int>| laid_out(g2, s2, e2, w);
    let p = g1.packages@[i];
    let q = g2.packages@[i];
    lemma_compact_runs_within(g1, s1, e1);
    let f = Seq::new(p.dependency_count as nat, |s: int| slot_of(w2, m[w1[p.dependency_start + s]]));
    assert forall|s: int| 0 <= s < f.len() implies {
        &&& q.dependency_start <= #[trigger] f[s] < q.dependency_start + q.dependency_count
        &&& same_dependency(g1.dependencies@[p.dependency_start + s], g2.dependencies@[f[s]])
    } by {
        let slot = p.dependency_start + s;
        assert(run_of_node(e1, version_names(s1), w1, i, p.dependency_start as int, p.dependency_count as int));
        let k1 = w1[slot];
        assert(e1[k1].source == i);
        let k2 = m[k1];
        assert(e2[k2] == e1[k1]);
        assert(w2.contains(k2));
        let slot2 = slot_of(w2, k2);
        assert(0 <= slot2 < w2.len() && w2[slot2] == k2);
        assert(g2.packages@.len() > 0);
        assert(g2.packages@[0].dependency_start == 0);
        lemma_find_run(g2, s2, e2, w2, slot2, 0);
        assert(entry_of_edge(g1.dependencies@[slot], e1[k1]));
        assert(entry_of_edge(g2.dependencies@[slot2], e2[k2]));
    }
    assert forall|s: int, t: int| 0 <= s < f.len() && 0 <= t < f.len() && s != t implies #[trigger] f[s]
        != #[trigger] f[t] by {
        let a = w1[p.dependency_start + s];
        let b = w1[p.dependency_start + t];
        assert(a != b);
        assert(0 <= a < e1.len() && 0 <= b < e1.len());
        if a < b {
            assert(m[a] < m[b]);
        } else {
            assert(m[b] < m[a]);
        }
        assert(w2.contains(m[a]) && w2.contains(m[b]));
    }
    f
}


// ---------------------------------------------------------------------------
// The options decide what the graph holds.
// ---------------------------------------------------------------------------

/// `options` lets in a dependency of `kind` (target-specific or not): a kind whose flag is
/// off, or a target-specific dependency when those are off, never.
pub open spec fn allowed_by(options: GraphBuildOptions, kind: DependencyKind, target_specific: bool) -> bool {
    &&& kind == DependencyKind::Normal ==> options.include_normal_dependencies
    &&& kind == DependencyKind::Build ==> options.include_build_dependencies
    &&& kind == DependencyKind::Dev ==> options.include_dev_dependencies
    &&& target_specific ==> options.include_target_specific_dependencies
}

/// The kind filter follows the option flags: each kind the dump knows passes exactly when
/// its flag is set, and a kind it does not know always passes.
pub proof fn lemma_kind_filter_follows_flags(options: GraphBuildOptions)
    ensures
        kind_included(DependencyKind::Normal, options) == options.include_normal_dependencies,
        kind_included(DependencyKind::Build, options) == options.include_build_dependencies,
        kind_included(DependencyKind::Dev, options) == options.include_dev_dependencies,
        forall|code: u8| #[trigger] kind_included(DependencyKind::Unknown(code), options),
{
}

/// A graph built with `options` holds no dependency of a kind they leave out, and no
/// target-specific dependency when they leave those out.
pub proof fn lemma_built_graph_respects_options(
    crates: TableModel,
    versions: TableModel,
    dependencies: TableModel,
    options: GraphBuildOptions,
    r: Result<(PackageGraph, BuildReport), GraphBuildError>,
)
    requires
        builds(r, crates, versions, dependencies, options),
        r is Ok,
    ensures
        forall|k: int|
            0 <= k < (r->Ok_0.0).dependencies@.len() ==> allowed_by(
                options,
                (#[trigger] (r->Ok_0.0).dependencies@[k]).kind,
                (r->Ok_0.0).dependencies@[k].target is Some,
            ),
{
    let names = crate_names_of(crates)->Ok_0;
    let state = selection_of(versions, names.dom())->Ok_0;
    let sel = choose|sel: Seq<SelectedVersion>|
        {
            &&& lists_selection(sel, state.selected, names)
            &&& builds_over(r, sel, state, dependencies, options)
        };
    let g = r->Ok_0.0;
    let e = dependency_edges(dependencies, sel, options)->Ok_0;
    assert(compacts(g, sel, e));
    let cols = dependency_columns(dependencies.headers)->Ok_0;
    lemma_records_allowed(dependencies.rows, cols, nodes_by_version(sel), nodes_by_crate(sel), options);
    let w = choose|w: Seq<int>| laid_out(g, sel, e, w);
    assert forall|k: int| 0 <= k < g.dependencies@.len() implies allowed_by(
        options,
        (#[trigger] g.dependencies@[k]).kind,
        g.dependencies@[k].target is Some,
    ) by {
        assert(entry_of_edge(g.dependencies@[k], e[w[k]]));
        assert(0 <= w[k] < e.len());
    }
}

proof fn lemma_records_allowed(
    rows: Seq<Seq<Seq<char>>>,
    cols: DependencyColumns,
    by_version: Map<u32, u32>,
    by_crate: Map<u32, u32>,
    options: GraphBuildOptions,
)
    requires
        dependency_records(rows, cols, by_version, by_crate, options) is Ok,
    ensures
        forall|k: int|
            0 <= k < (dependency_records(rows, cols, by_version, by_crate, options)->Ok_0).len() ==> allowed_by(
                options,
                (#[trigger] (dependency_records(rows, cols, by_version, by_crate, options)->Ok_0)[k]).kind,
                (dependency_records(rows, cols, by_version, by_crate, options)->Ok_0)[k].target is Some,
            ),
    decreases rows.len(),
{
    if rows.len() > 0 {
        lemma_records_allowed(rows.drop_last(), cols, by_version, by_crate, options);
        let prev = dependency_records(rows.drop_last(), cols, by_version, by_crate, options)->Ok_0;
        let x = dependency_records(rows, cols, by_version, by_crate, options)->Ok_0;
        assert(x == prev || (x.len() == prev.len() + 1 && x.drop_last() == prev && allowed_by(
            options,
            x.last().kind,
            x.last().target is Some,
        )));
        assert forall|k: int| 0 <= k < x.len() implies allowed_by(
            options,
            (#[trigger] x[k]).kind,
            x[k].target is Some,
        ) by {
            if k < prev.len() {
                assert(x[k] == prev[k]);
            }
        }
    }
}

} // verus!
