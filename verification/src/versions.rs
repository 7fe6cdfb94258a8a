//! Choosing one version per crate: the candidate order and the selection over the
//! `versions.csv` records.

use vstd::hash_map::HashMapWithView;
use vstd::prelude::*;

use crate::dump::{
    Column, CsvTable, DumpFile, GraphBuildError, TableModel, column_title, dump_bool, dump_number,
    field, first_position, parse_dump_bool, parse_u32, parse_u64, required_column,
};
use crate::ranking::sort_selected_versions;
use crate::text::{Order, compare_text, text_order};

verus! {

#[verifier::external_type_specification]
#[verifier::external_body]
pub struct ExSemverVersion(semver::Version);

/// What `semver::Version::parse` makes of `text`: `None` when it is not a semantic
/// version, otherwise whether the version has no pre-release part.
pub uninterp spec fn semver_parse(text: Seq<char>) -> Option<bool>;

/// How `semver::Version`'s order ranks the versions parsed from the two texts.
pub uninterp spec fn semver_order(a: Seq<char>, b: Seq<char>) -> Order;

/// A version text that parses as a semantic version, with the parsed version.
#[derive(Debug)]
pub struct ParsedVersion {
    text: String,
    stable: bool,
    version: semver::Version,
}

impl View for ParsedVersion {
    type V = Seq<char>;

    closed spec fn view(&self) -> Seq<char> {
        self.text@
    }
}

impl ParsedVersion {
    #[verifier::type_invariant]
    closed spec fn parsed_from_text(self) -> bool {
        semver_parse(self.text@) == Some(self.stable)
    }

    /// The semantic version that `text` spells, if it spells one.
    pub fn parse(text: &str) -> (r: Option<ParsedVersion>)
        ensures
            r is Some <==> semver_parse(text@) is Some,
            r matches Some(v) ==> v@ == text@,
    {
        parse_semver(text)
    }

    /// Whether the version has no pre-release part.
    pub fn is_stable(&self) -> (r: bool)
        ensures
            semver_parse(self@) == Some(r),
    {
        proof {
            use_type_invariant(self);
        }
        self.stable
    }
}

/// `semver::Version::parse`, keeping the text and whether `pre` is empty.
/// Claimed: `Some` exactly when the crate parses `text`, and then the pre-release flag the
/// crate reports, both as named by `semver_parse`.
#[verifier::external_body]
fn parse_semver(text: &str) -> (r: Option<ParsedVersion>)
    ensures
        r is Some <==> semver_parse(text@) is Some,
        r matches Some(v) ==> v@ == text@,
{
    semver::Version::parse(text).ok().map(
        |version| ParsedVersion { text: text.to_owned(), stable: version.pre.is_empty(), version },
    )
}

/// `Ord::cmp` of two `semver::Version`s. Claimed: the result is the crate's order of the
/// versions, named `semver_order` over their texts.
#[verifier::external_body]
fn compare_semver(a: &ParsedVersion, b: &ParsedVersion) -> (r: Order)
    ensures
        r == semver_order(a@, b@),
{
    match a.version.cmp(&b.version) {
        std::cmp::Ordering::Less => Order::Less,
        std::cmp::Ordering::Equal => Order::Equal,
        std::cmp::Ordering::Greater => Order::Greater,
    }
}

/// One version of a crate, competing to be the version the graph shows.
#[derive(Debug)]
pub struct VersionCandidate {
    pub crate_id: u32,
    pub version_id: u32,
    pub version: String,
    pub parsed_version: Option<ParsedVersion>,
    pub created_at: String,
    pub downloads: u64,
}

pub struct CandidateModel {
    pub crate_id: u32,
    pub version_id: u32,
    pub version: Seq<char>,
    pub semver: Option<Seq<char>>,
    pub created_at: Seq<char>,
    pub downloads: u64,
}

impl View for VersionCandidate {
    type V = CandidateModel;

    open spec fn view(&self) -> CandidateModel {
        CandidateModel {
            crate_id: self.crate_id,
            version_id: self.version_id,
            version: self.version@,
            semver: match self.parsed_version {
                Some(v) => Some(v@),
                None => None,
            },
            created_at: self.created_at@,
            downloads: self.downloads,
        }
    }
}

/// Stable semantic versions rank 2, pre-releases 1, texts that are no semantic version 0.
pub open spec fn version_priority(c: CandidateModel) -> u8 {
    match c.semver {
        Some(text) => if semver_parse(text) == Some(true) {
            2
        } else {
            1
        },
        None => 0,
    }
}

pub open spec fn integer_order(a: int, b: int) -> Order {
    if a < b {
        Order::Less
    } else if a > b {
        Order::Greater
    } else {
        Order::Equal
    }
}

/// The order of candidates: priority, then the semantic versions when both have one,
/// then creation time as text, then downloads, then version id.
pub open spec fn candidate_order(a: CandidateModel, b: CandidateModel) -> Order {
    let by_priority = integer_order(version_priority(a) as int, version_priority(b) as int);
    let by_semver = match (a.semver, b.semver) {
        (Some(x), Some(y)) => semver_order(x, y),
        _ => Order::Equal,
    };
    let by_created = text_order(a.created_at, b.created_at);
    let by_downloads = integer_order(a.downloads as int, b.downloads as int);
    let by_id = integer_order(a.version_id as int, b.version_id as int);
    if by_priority != Order::Equal {
        by_priority
    } else if by_semver != Order::Equal {
        by_semver
    } else if by_created != Order::Equal {
        by_created
    } else if by_downloads != Order::Equal {
        by_downloads
    } else {
        by_id
    }
}

fn compare_integers(a: u64, b: u64) -> (r: Order)
    ensures
        r == integer_order(a as int, b as int),
{
    if a < b {
        Order::Less
    } else if a > b {
        Order::Greater
    } else {
        Order::Equal
    }
}

impl VersionCandidate {
    pub fn priority(&self) -> (r: u8)
        ensures
            r == version_priority(self@),
    {
        match &self.parsed_version {
            Some(v) => if v.is_stable() {
                2
            } else {
                1
            },
            None => 0,
        }
    }

    /// How this candidate ranks against `other`.
    pub fn compare(&self, other: &VersionCandidate) -> (r: Order)
        ensures
            r == candidate_order(self@, other@),
    {
        let by_priority = compare_integers(self.priority() as u64, other.priority() as u64);
        if by_priority != Order::Equal {
            return by_priority;
        }
        let by_semver = match (&self.parsed_version, &other.parsed_version) {
            (Some(x), Some(y)) => compare_semver(x, y),
            _ => Order::Equal,
        };
        if by_semver != Order::Equal {
            return by_semver;
        }
        let by_created = compare_text(self.created_at.as_str(), other.created_at.as_str());
        if by_created != Order::Equal {
            return by_created;
        }
        let by_downloads = compare_integers(self.downloads, other.downloads);
        if by_downloads != Order::Equal {
            return by_downloads;
        }
        compare_integers(self.version_id as u64, other.version_id as u64)
    }
}

// ---------------------------------------------------------------------------
// Reading fields of a record.
// ---------------------------------------------------------------------------

/// Field `index` of `row`, as `field` reads it.
pub open spec fn text_field(
    row: Seq<Seq<char>>,
    index: usize,
    file: DumpFile,
    r: usize,
    column: Column,
) -> Result<Seq<char>, GraphBuildError> {
    if (index as int) < row.len() {
        Ok(row[index as int])
    } else {
        Err(GraphBuildError::MissingField { file, row: r, column })
    }
}

pub open spec fn u32_field(
    row: Seq<Seq<char>>,
    index: usize,
    file: DumpFile,
    r: usize,
    column: Column,
) -> Result<u32, GraphBuildError> {
    match text_field(row, index, file, r, column) {
        Err(e) => Err(e),
        Ok(t) => match dump_number(t, u32::MAX as nat) {
            Some(n) => Ok(n as u32),
            None => Err(GraphBuildError::InvalidNumber { file, row: r, column }),
        },
    }
}

pub open spec fn u64_field(
    row: Seq<Seq<char>>,
    index: usize,
    file: DumpFile,
    r: usize,
    column: Column,
) -> Result<u64, GraphBuildError> {
    match text_field(row, index, file, r, column) {
        Err(e) => Err(e),
        Ok(t) => match dump_number(t, u64::MAX as nat) {
            Some(n) => Ok(n as u64),
            None => Err(GraphBuildError::InvalidNumber { file, row: r, column }),
        },
    }
}

pub open spec fn bool_field(
    row: Seq<Seq<char>>,
    index: usize,
    file: DumpFile,
    r: usize,
    column: Column,
) -> Result<bool, GraphBuildError> {
    match text_field(row, index, file, r, column) {
        Err(e) => Err(e),
        Ok(t) => match dump_bool(t) {
            Some(b) => Ok(b),
            None => Err(GraphBuildError::InvalidBool { file, row: r, column }),
        },
    }
}

/// The position of `column` in `headers`, as `required_column` finds it.
pub open spec fn column_index(headers: Seq<Seq<char>>, file: DumpFile, column: Column) -> Result<
    usize,
    GraphBuildError,
> {
    match first_position(headers, column_title(column)) {
        Some(i) => Ok(i as usize),
        None => Err(GraphBuildError::MissingColumn { file, column }),
    }
}

pub(crate) fn text_at(row: &Vec<String>, index: usize, file: DumpFile, r: usize, column: Column) -> (res: Result<&str, GraphBuildError>)
    ensures
        match text_field(row.deep_view(), index, file, r, column) {
            Ok(t) => res matches Ok(s) && s@ == t,
            Err(e) => res == Err::<&str, GraphBuildError>(e),
        },
{
    field(row, index, file, r, column)
}

pub(crate) fn u32_at(row: &Vec<String>, index: usize, file: DumpFile, r: usize, column: Column) -> (res: Result<u32, GraphBuildError>)
    ensures
        res == u32_field(row.deep_view(), index, file, r, column),
{
    let t = text_at(row, index, file, r, column)?;
    match parse_u32(t) {
        Some(n) => Ok(n),
        None => Err(GraphBuildError::InvalidNumber { file, row: r, column }),
    }
}

pub(crate) fn u64_at(row: &Vec<String>, index: usize, file: DumpFile, r: usize, column: Column) -> (res: Result<u64, GraphBuildError>)
    ensures
        res == u64_field(row.deep_view(), index, file, r, column),
{
    let t = text_at(row, index, file, r, column)?;
    match parse_u64(t) {
        Some(n) => Ok(n),
        None => Err(GraphBuildError::InvalidNumber { file, row: r, column }),
    }
}

pub(crate) fn bool_at(row: &Vec<String>, index: usize, file: DumpFile, r: usize, column: Column) -> (res: Result<bool, GraphBuildError>)
    ensures
        res == bool_field(row.deep_view(), index, file, r, column),
{
    let t = text_at(row, index, file, r, column)?;
    match parse_dump_bool(t) {
        Some(b) => Ok(b),
        None => Err(GraphBuildError::InvalidBool { file, row: r, column }),
    }
}

// ---------------------------------------------------------------------------
// Selecting one version per crate.
// ---------------------------------------------------------------------------

/// Positions of the columns of `versions.csv` that selection reads.
#[derive(Clone, Copy, Debug, PartialEq, Eq, Structural)]
pub struct VersionColumns {
    pub id: usize,
    pub crate_id: usize,
    pub num: usize,
    pub num_no_build: usize,
    pub downloads: usize,
    pub created_at: usize,
    pub yanked: usize,
}

/// The columns, looked up in the order the selection asks for them.
pub open spec fn version_columns(headers: Seq<Seq<char>>) -> Result<VersionColumns, GraphBuildError> {
    let f = DumpFile::Versions;
    match column_index(headers, f, Column::Id) {
        Err(e) => Err(e),
        Ok(id) => match column_index(headers, f, Column::CrateId) {
            Err(e) => Err(e),
            Ok(crate_id) => match column_index(headers, f, Column::Num) {
                Err(e) => Err(e),
                Ok(num) => match column_index(headers, f, Column::NumNoBuild) {
                    Err(e) => Err(e),
                    Ok(num_no_build) => match column_index(headers, f, Column::Downloads) {
                        Err(e) => Err(e),
                        Ok(downloads) => match column_index(headers, f, Column::CreatedAt) {
                            Err(e) => Err(e),
                            Ok(created_at) => match column_index(headers, f, Column::Yanked) {
                                Err(e) => Err(e),
                                Ok(yanked) => Ok(
                                    VersionColumns {
                                        id,
                                        crate_id,
                                        num,
                                        num_no_build,
                                        downloads,
                                        created_at,
                                        yanked,
                                    },
                                ),
                            },
                        },
                    },
                },
            },
        },
    }
}

/// The state of the selection: the best candidate of each crate so far, and how many
/// yanked versions and versions without a semantic version were seen.
pub struct SelectionModel {
    pub selected: Map<u32, CandidateModel>,
    pub yanked: nat,
    pub non_semver: nat,
}

/// A crate's first candidate is kept; a later one replaces it only when it ranks higher.
pub open spec fn keep_better(selected: Map<u32, CandidateModel>, c: CandidateModel) -> Map<
    u32,
    CandidateModel,
> {
    if selected.contains_key(c.crate_id) {
        if candidate_order(c, selected[c.crate_id]) == Order::Greater {
            selected.insert(c.crate_id, c)
        } else {
            selected
        }
    } else {
        selected.insert(c.crate_id, c)
    }
}

/// One record of `versions.csv`: records of unknown crates are skipped, yanked versions
/// are counted and skipped, and every other version competes for its crate.
pub open spec fn version_record(
    state: SelectionModel,
    row: Seq<Seq<char>>,
    r: usize,
    cols: VersionColumns,
    known: Set<u32>,
) -> Result<SelectionModel, GraphBuildError> {
    let f = DumpFile::Versions;
    match u32_field(row, cols.crate_id, f, r, Column::CrateId) {
        Err(e) => Err(e),
        Ok(crate_id) => if !known.contains(crate_id) {
            Ok(state)
        } else {
            match bool_field(row, cols.yanked, f, r, Column::Yanked) {
                Err(e) => Err(e),
                Ok(yanked) => if yanked {
                    Ok(
                        SelectionModel {
                            selected: state.selected,
                            yanked: state.yanked + 1,
                            non_semver: state.non_semver,
                        },
                    )
                } else {
                    match text_field(row, cols.num, f, r, Column::Num) {
                        Err(e) => Err(e),
                        Ok(version) => match text_field(
                            row,
                            cols.num_no_build,
                            f,
                            r,
                            Column::NumNoBuild,
                        ) {
                            Err(e) => Err(e),
                            Ok(normalized) => {
                                let semver: Option<Seq<char>> = if semver_parse(normalized) is Some {
                                    Some(normalized)
                                } else {
                                    None
                                };
                                let non_semver = if semver is Some {
                                    state.non_semver
                                } else {
                                    state.non_semver + 1
                                };
                                match u32_field(row, cols.id, f, r, Column::Id) {
                                    Err(e) => Err(e),
                                    Ok(version_id) => match text_field(
                                        row,
                                        cols.created_at,
                                        f,
                                        r,
                                        Column::CreatedAt,
                                    ) {
                                        Err(e) => Err(e),
                                        Ok(created_at) => match u64_field(
                                            row,
                                            cols.downloads,
                                            f,
                                            r,
                                            Column::Downloads,
                                        ) {
                                            Err(e) => Err(e),
                                            Ok(downloads) => Ok(
                                                SelectionModel {
                                                    selected: keep_better(
                                                        state.selected,
                                                        CandidateModel {
                                                            crate_id,
                                                            version_id,
                                                            version,
                                                            semver,
                                                            created_at,
                                                            downloads,
                                                        },
                                                    ),
                                                    yanked: state.yanked,
                                                    non_semver,
                                                },
                                            ),
                                        },
                                    },
                                }
                            },
                        },
                    }
                },
            }
        },
    }
}

pub open spec fn initial_selection() -> SelectionModel {
    SelectionModel { selected: Map::empty(), yanked: 0, non_semver: 0 }
}

/// The records in order; the first failing record decides the error.
pub open spec fn version_records(
    rows: Seq<Seq<Seq<char>>>,
    cols: VersionColumns,
    known: Set<u32>,
) -> Result<SelectionModel, GraphBuildError>
    decreases rows.len(),
{
    if rows.len() == 0 {
        Ok(initial_selection())
    } else {
        match version_records(rows.drop_last(), cols, known) {
            Err(e) => Err(e),
            Ok(state) => version_record(state, rows.last(), (rows.len() - 1) as usize, cols, known),
        }
    }
}

/// The whole selection over `versions.csv`; a malformed CSV record fails it after the
/// records before it.
pub open spec fn selection_of(table: TableModel, known: Set<u32>) -> Result<
    SelectionModel,
    GraphBuildError,
> {
    if !table.headers_read {
        Err(GraphBuildError::Csv { file: DumpFile::Versions })
    } else {
        selection_after_header(table, known)
    }
}

pub open spec fn selection_after_header(table: TableModel, known: Set<u32>) -> Result<
    SelectionModel,
    GraphBuildError,
> {
    match version_columns(table.headers) {
        Err(e) => Err(e),
        Ok(cols) => match version_records(table.rows, cols, known) {
            Err(e) => Err(e),
            Ok(state) => if table.complete {
                Ok(state)
            } else {
                Err(GraphBuildError::Csv { file: DumpFile::Versions })
            },
        },
    }
}

/// A candidate of higher priority ranks above one of lower priority, whatever else they
/// hold: a stable release beats a pre-release, and both beat a text that is no semantic
/// version.
pub proof fn lemma_priority_decides(a: CandidateModel, b: CandidateModel)
    requires
        version_priority(a) > version_priority(b),
    ensures
        candidate_order(a, b) == Order::Greater,
        candidate_order(b, a) == Order::Less,
{
}

/// Between two candidates of equal priority that both parse as semantic versions, the order
/// of the versions decides whenever they differ: the higher version ranks higher. So two
/// pre-releases, like two stable releases, compare as semver compares them.
pub proof fn lemma_semver_decides_within_priority(a: CandidateModel, b: CandidateModel)
    requires
        version_priority(a) == version_priority(b),
        a.semver is Some,
        b.semver is Some,
        semver_order(a.semver->Some_0, b.semver->Some_0) != Order::Equal,
    ensures
        candidate_order(a, b) == semver_order(a.semver->Some_0, b.semver->Some_0),
{
}

/// A version offered for a crate replaces the one kept so far when both have the same
/// priority and the offered one is higher in semver order, and leaves it when it is lower.
pub proof fn lemma_higher_version_replaces(selected: Map<u32, CandidateModel>, c: CandidateModel)
    requires
        selected.contains_key(c.crate_id),
        version_priority(c) == version_priority(selected[c.crate_id]),
        c.semver is Some,
        selected[c.crate_id].semver is Some,
    ensures
        semver_order(c.semver->Some_0, selected[c.crate_id].semver->Some_0) == Order::Greater
            ==> keep_better(selected, c)[c.crate_id] == c,
        semver_order(c.semver->Some_0, selected[c.crate_id].semver->Some_0) == Order::Less
            ==> keep_better(selected, c)[c.crate_id] == selected[c.crate_id],
{
}

/// The candidate that a record of `versions.csv` offers: every field it needs reads well
/// and the version is not yanked.
pub open spec fn offered_candidate(row: Seq<Seq<char>>, r: usize, cols: VersionColumns) -> Option<
    CandidateModel,
> {
    let f = DumpFile::Versions;
    match (
        u32_field(row, cols.crate_id, f, r, Column::CrateId),
        bool_field(row, cols.yanked, f, r, Column::Yanked),
        text_field(row, cols.num, f, r, Column::Num),
        text_field(row, cols.num_no_build, f, r, Column::NumNoBuild),
        u32_field(row, cols.id, f, r, Column::Id),
        text_field(row, cols.created_at, f, r, Column::CreatedAt),
        u64_field(row, cols.downloads, f, r, Column::Downloads),
    ) {
        (
            Ok(crate_id),
            Ok(false),
            Ok(version),
            Ok(normalized),
            Ok(version_id),
            Ok(created_at),
            Ok(downloads),
        ) => Some(
            CandidateModel {
                crate_id,
                version_id,
                version,
                semver: if semver_parse(normalized) is Some {
                    Some(normalized)
                } else {
                    None
                },
                created_at,
                downloads,
            },
        ),
        _ => None,
    }
}

proof fn lemma_keep_better_priority(selected: Map<u32, CandidateModel>, c: CandidateModel)
    ensures
        keep_better(selected, c).contains_key(c.crate_id),
        version_priority(keep_better(selected, c)[c.crate_id]) >= version_priority(c),
        forall|k: u32| #[trigger]
            selected.contains_key(k) ==> keep_better(selected, c).contains_key(k) && version_priority(
                keep_better(selected, c)[k],
            ) >= version_priority(selected[k]),
{
}

proof fn lemma_record_keeps_priorities(
    state: SelectionModel,
    row: Seq<Seq<char>>,
    r: usize,
    cols: VersionColumns,
    known: Set<u32>,
)
    requires
        version_record(state, row, r, cols, known) is Ok,
    ensures
        forall|k: u32| #[trigger]
            state.selected.contains_key(k) ==> {
                let after = version_record(state, row, r, cols, known)->Ok_0.selected;
                &&& after.contains_key(k)
                &&& version_priority(after[k]) >= version_priority(state.selected[k])
            },
        offered_candidate(row, r, cols) is Some && known.contains(
            offered_candidate(row, r, cols)->Some_0.crate_id,
        ) ==> {
            let c = offered_candidate(row, r, cols)->Some_0;
            let after = version_record(state, row, r, cols, known)->Ok_0.selected;
            &&& after.contains_key(c.crate_id)
            &&& version_priority(after[c.crate_id]) >= version_priority(c)
        },
{
    if let Some(c) = offered_candidate(row, r, cols) {
        lemma_keep_better_priority(state.selected, c);
    }
    let f = DumpFile::Versions;
    if let Ok(crate_id) = u32_field(row, cols.crate_id, f, r, Column::CrateId) {
        if let Ok(false) = bool_field(row, cols.yanked, f, r, Column::Yanked) {
            if let Ok(version) = text_field(row, cols.num, f, r, Column::Num) {
                if let Ok(normalized) = text_field(row, cols.num_no_build, f, r, Column::NumNoBuild) {
                    if let Ok(version_id) = u32_field(row, cols.id, f, r, Column::Id) {
                        if let Ok(created_at) = text_field(row, cols.created_at, f, r, Column::CreatedAt) {
                            if let Ok(downloads) = u64_field(row, cols.downloads, f, r, Column::Downloads) {
                                let c = CandidateModel {
                                    crate_id,
                                    version_id,
                                    version,
                                    semver: if semver_parse(normalized) is Some {
                                        Some(normalized)
                                    } else {
                                        None
                                    },
                                    created_at,
                                    downloads,
                                };
                                lemma_keep_better_priority(state.selected, c);
                            }
                        }
                    }
                }
            }
        }
    }
}

/// The version selected for a crate ranks, by priority, at least as high as every version
/// of the crate that the records offer: a crate with a stable release that is not yanked
/// gets a stable release, and one with a pre-release gets at least a pre-release.
pub proof fn lemma_selection_keeps_highest_priority(
    rows: Seq<Seq<Seq<char>>>,
    cols: VersionColumns,
    known: Set<u32>,
    r: int,
)
    requires
        version_records(rows, cols, known) is Ok,
        0 <= r < rows.len(),
        offered_candidate(rows[r], r as usize, cols) is Some,
        known.contains(offered_candidate(rows[r], r as usize, cols)->Some_0.crate_id),
    ensures
        ({
            let c = offered_candidate(rows[r], r as usize, cols)->Some_0;
            let selected = version_records(rows, cols, known)->Ok_0.selected;
            &&& selected.contains_key(c.crate_id)
            &&& version_priority(selected[c.crate_id]) >= version_priority(c)
        }),
    decreases rows.len(),
{
    let h = rows.drop_last();
    let state = version_records(h, cols, known)->Ok_0;
    let last = (rows.len() - 1) as usize;
    lemma_record_keeps_priorities(state, rows.last(), last, cols, known);
    if r < rows.len() - 1 {
        assert(h[r] == rows[r]);
        lemma_selection_keeps_highest_priority(h, cols, known, r);
    }
}

proof fn lemma_version_records_error_persists(
    rows: Seq<Seq<Seq<char>>>,
    k: nat,
    m: nat,
    cols: VersionColumns,
    known: Set<u32>,
)
    requires
        k <= m <= rows.len(),
        version_records(rows.take(k as int), cols, known) is Err,
    ensures
        version_records(rows.take(m as int), cols, known) == version_records(
            rows.take(k as int),
            cols,
            known,
        ),
    decreases m,
{
    if m > k {
        lemma_version_records_error_persists(rows, k, (m - 1) as nat, cols, known);
        assert(rows.take(m as int).drop_last() =~= rows.take(m - 1));
    }
}

/// The candidates found so far, each crate once, with the position of each crate.
struct Selection {
    candidates: Vec<VersionCandidate>,
    position: HashMapWithView<u32, usize>,
    yanked: usize,
    non_semver: usize,
}

impl Selection {
    spec fn wf(&self, known: Set<u32>) -> bool {
        &&& forall|k: u32| #[trigger]
            self.position@.contains_key(k) ==> {
                &&& (self.position@[k] as int) < self.candidates@.len()
                &&& self.candidates@[self.position@[k] as int].crate_id == k
                &&& known.contains(k)
            }
        &&& forall|i: int|
            0 <= i < self.candidates@.len() ==> {
                &&& self.position@.contains_key(#[trigger] self.candidates@[i].crate_id)
                &&& self.position@[self.candidates@[i].crate_id] == i
            }
    }

    spec fn model(&self) -> SelectionModel {
        SelectionModel {
            selected: Map::new(
                |k: u32| self.position@.contains_key(k),
                |k: u32| self.candidates@[self.position@[k] as int]@,
            ),
            yanked: self.yanked as nat,
            non_semver: self.non_semver as nat,
        }
    }

    fn new() -> (r: Selection)
        ensures
            r.wf(Set::empty()),
            r.model() == initial_selection(),
            r.candidates@.len() == 0,
    {
        broadcast use vstd::std_specs::hash::group_hash_axioms;

        let r = Selection {
            candidates: Vec::new(),
            position: HashMapWithView::new(),
            yanked: 0,
            non_semver: 0,
        };
        assert(r.model().selected =~= Map::<u32, CandidateModel>::empty());
        r
    }

    /// Offers `candidate` for its crate, which the dump knows.
    fn offer(&mut self, candidate: VersionCandidate, known: Ghost<Set<u32>>)
        requires
            old(self).wf(known@),
            known@.contains(candidate.crate_id),
        ensures
            final(self).wf(known@),
            final(self).model() == (SelectionModel {
                selected: keep_better(old(self).model().selected, candidate@),
                yanked: old(self).model().yanked,
                non_semver: old(self).model().non_semver,
            }),
            final(self).candidates@.len() <= old(self).candidates@.len() + 1,
    {
        let ghost before = self.model().selected;
        let crate_id = candidate.crate_id;
        match self.position.get(&crate_id) {
            Some(p) => {
                let p = *p;
                if candidate.compare(&self.candidates[p]) == Order::Greater {
                    let ghost c = candidate@;
                    self.candidates.set(p, candidate);
                    assert(self.model().selected =~= before.insert(crate_id, c));
                } else {
                    assert(self.model().selected =~= before);
                }
            },
            None => {
                let ghost c = candidate@;
                let index = self.candidates.len();
                self.candidates.push(candidate);
                self.position.insert(crate_id, index);
                assert(self.model().selected =~= before.insert(crate_id, c));
            },
        }
    }
}

/// Reads one record of `versions.csv` into the selection, as `version_record` says.
fn select_record(
    selection: &mut Selection,
    row: &Vec<String>,
    r: usize,
    cols: VersionColumns,
    crate_names: &HashMapWithView<u32, String>,
) -> (res: Result<(), GraphBuildError>)
    requires
        old(selection).wf(crate_names@.dom()),
        old(selection).yanked + old(selection).non_semver <= r,
        old(selection).candidates@.len() <= r,
        r < usize::MAX,
    ensures
        match version_record(old(selection).model(), row.deep_view(), r, cols, crate_names@.dom()) {
            Ok(m) => {
                &&& res is Ok
                &&& final(selection).wf(crate_names@.dom())
                &&& final(selection).model() == m
                &&& final(selection).yanked + final(selection).non_semver <= r + 1
                &&& final(selection).candidates@.len() <= r + 1
            },
            Err(e) => res == Err::<(), GraphBuildError>(e),
        },
{
    let f = DumpFile::Versions;
    let ghost known = crate_names@.dom();
    let crate_id = u32_at(row, cols.crate_id, f, r, Column::CrateId)?;
    if !crate_names.contains_key(&crate_id) {
        return Ok(());
    }
    let yanked = bool_at(row, cols.yanked, f, r, Column::Yanked)?;
    if yanked {
        selection.yanked = selection.yanked + 1;
        return Ok(());
    }
    let version = text_at(row, cols.num, f, r, Column::Num)?;
    let normalized = text_at(row, cols.num_no_build, f, r, Column::NumNoBuild)?;
    let parsed_version = ParsedVersion::parse(normalized);
    if parsed_version.is_none() {
        selection.non_semver = selection.non_semver + 1;
    }
    let version_id = u32_at(row, cols.id, f, r, Column::Id)?;
    let created_at = text_at(row, cols.created_at, f, r, Column::CreatedAt)?;
    let downloads = u64_at(row, cols.downloads, f, r, Column::Downloads)?;
    let candidate = VersionCandidate {
        crate_id,
        version_id,
        version: version.to_owned(),
        parsed_version,
        created_at: created_at.to_owned(),
        downloads,
    };
    selection.offer(candidate, Ghost(known));
    Ok(())
}

/// A crate with the version chosen for it.
#[derive(Debug, Clone)]
pub struct SelectedVersion {
    pub crate_id: u32,
    pub version_id: u32,
    pub name: String,
    pub version: String,
    pub downloads: u64,
}

/// `a` comes before `b` in the list of selected versions: by name as text, then crate id.
pub open spec fn version_key_less(a: SelectedVersion, b: SelectedVersion) -> bool {
    ||| text_order(a.name@, b.name@) == Order::Less
    ||| text_order(a.name@, b.name@) == Order::Equal && a.crate_id < b.crate_id
}

/// `p` rearranges the positions `0..n`.
pub open spec fn permutes(p: Seq<int>, n: nat) -> bool {
    &&& p.len() == n
    &&& forall|i: int| 0 <= i < n ==> 0 <= #[trigger] p[i] < n
    &&& forall|i: int, j: int| 0 <= i < n && 0 <= j < n && i != j ==> #[trigger] p[i] != #[trigger] p[j]
    &&& forall|k: int| 0 <= k < n ==> #[trigger] p.contains(k)
}

/// `v` describes candidate `c` of a crate called `name`.
pub open spec fn describes(v: SelectedVersion, c: CandidateModel, name: Seq<char>) -> bool {
    &&& v.crate_id == c.crate_id
    &&& v.version_id == c.version_id
    &&& v.name@ == name
    &&& v.version@ == c.version
    &&& v.downloads == c.downloads
}

/// `versions` lists the selected candidate of every crate once, ordered by name, then id.
pub open spec fn lists_selection(
    versions: Seq<SelectedVersion>,
    selected: Map<u32, CandidateModel>,
    names: Map<u32, Seq<char>>,
) -> bool {
    &&& forall|i: int, j: int|
        0 <= i < j < versions.len() ==> !version_key_less(#[trigger] versions[j], #[trigger] versions[i])
    &&& forall|i: int, j: int|
        0 <= i < j < versions.len() ==> (#[trigger] versions[i]).crate_id != (
        #[trigger] versions[j]).crate_id
    &&& forall|i: int|
        0 <= i < versions.len() ==> {
            &&& selected.contains_key(#[trigger] versions[i].crate_id)
            &&& names.contains_key(versions[i].crate_id)
            &&& describes(versions[i], selected[versions[i].crate_id], names[versions[i].crate_id])
        }
    &&& forall|k: u32|
        #[trigger] selected.contains_key(k) ==> exists|i: int|
            0 <= i < versions.len() && (#[trigger] versions[i]).crate_id == k
}

/// The selected version of each crate that `versions.csv` mentions, ordered by name then
/// crate id, with the number of yanked versions skipped and the number of versions
/// that are no semantic version.
pub fn select_versions(table: &CsvTable, crate_names: &HashMapWithView<u32, String>) -> (r: Result<
    (Vec<SelectedVersion>, usize, usize),
    GraphBuildError,
>)
    ensures
        match selection_of(table@, crate_names@.dom()) {
            Err(e) => r == Err::<(Vec<SelectedVersion>, usize, usize), GraphBuildError>(e),
            Ok(state) => r matches Ok((versions, yanked, non_semver)) && {
                &&& yanked == state.yanked
                &&& non_semver == state.non_semver
                &&& lists_selection(
                    versions@,
                    state.selected,
                    crate_names@.map_values(|s: String| s@),
                )
            },
        },
{
    let f = DumpFile::Versions;
    if !table.headers_read {
        return Err(GraphBuildError::Csv { file: f });
    }
    let headers = &table.headers;
    let id = required_column(headers, f, Column::Id)?;
    let crate_id = required_column(headers, f, Column::CrateId)?;
    let num = required_column(headers, f, Column::Num)?;
    let num_no_build = required_column(headers, f, Column::NumNoBuild)?;
    let downloads = required_column(headers, f, Column::Downloads)?;
    let created_at = required_column(headers, f, Column::CreatedAt)?;
    let yanked = required_column(headers, f, Column::Yanked)?;
    let cols = VersionColumns { id, crate_id, num, num_no_build, downloads, created_at, yanked };
    assert(version_columns(table@.headers) == Ok::<VersionColumns, GraphBuildError>(cols));

    let ghost rows = table@.rows;
    let ghost known = crate_names@.dom();
    let mut selection = Selection::new();
    let mut i: usize = 0;
    while i < table.rows.len()
        invariant
            i <= rows.len(),
            rows == table@.rows,
            rows.len() == table.rows@.len(),
            known == crate_names@.dom(),
            table@.headers_read,
            version_columns(table@.headers) == Ok::<VersionColumns, GraphBuildError>(cols),
            selection.wf(known),
            selection.yanked + selection.non_semver <= i,
            selection.candidates@.len() <= i,
            version_records(rows.take(i as int), cols, known) == Ok::<
                SelectionModel,
                GraphBuildError,
            >(selection.model()),
        decreases rows.len() - i,
    {
        proof {
            assert(rows.take(i + 1).drop_last() =~= rows.take(i as int));
            assert(rows.take(i + 1).last() == table.rows@[i as int].deep_view());
        }
        let ghost m = selection.model();
        match select_record(&mut selection, &table.rows[i], i, cols, crate_names) {
            Ok(()) => {},
            Err(e) => {
                proof {
                    assert(version_records(rows.take(i + 1), cols, known) == Err::<
                        SelectionModel,
                        GraphBuildError,
                    >(e));
                    lemma_version_records_error_persists(
                        rows,
                        (i + 1) as nat,
                        rows.len(),
                        cols,
                        known,
                    );
                    assert(rows.take(rows.len() as int) =~= rows);
                }
                return Err(e);
            },
        }
        i = i + 1;
    }
    assert(rows.take(i as int) =~= rows);
    if !table.complete {
        return Err(GraphBuildError::Csv { file: f });
    }
    let versions = list_selection(&selection, crate_names);
    Ok((versions, selection.yanked, selection.non_semver))
}

/// The selected candidates as a list ordered by name, then crate id.
fn list_selection(selection: &Selection, crate_names: &HashMapWithView<u32, String>) -> (r: Vec<
    SelectedVersion,
>)
    requires
        selection.wf(crate_names@.dom()),
    ensures
        lists_selection(r@, selection.model().selected, crate_names@.map_values(|s: String| s@)),
{
    let ghost known = crate_names@.dom();
    let ghost selected = selection.model().selected;
    let mut versions: Vec<SelectedVersion> = Vec::new();
    let mut i: usize = 0;
    while i < selection.candidates.len()
        invariant
            i <= selection.candidates@.len(),
            known == crate_names@.dom(),
            selected == selection.model().selected,
            selection.wf(known),
            versions@.len() == i,
            forall|k: int|
                0 <= k < i ==> {
                    &&& (#[trigger] versions@[k]).crate_id == selection.candidates@[k].crate_id
                    &&& selected.contains_key(versions@[k].crate_id)
                    &&& crate_names@.contains_key(versions@[k].crate_id)
                    &&& describes(
                        versions@[k],
                        selected[versions@[k].crate_id],
                        crate_names@[versions@[k].crate_id]@,
                    )
                },
        decreases selection.candidates@.len() - i,
    {
        let candidate = &selection.candidates[i];
        assert(selection.position@.contains_key(candidate.crate_id));
        let name = match crate_names.get(&candidate.crate_id) {
            Some(name) => name.clone(),
            None => {
                assert(false);
                String::new()
            },
        };
        versions.push(
            SelectedVersion {
                crate_id: candidate.crate_id,
                version_id: candidate.version_id,
                name,
                version: candidate.version.clone(),
                downloads: candidate.downloads,
            },
        );
        i = i + 1;
    }
    let ghost unsorted = versions@;
    assert forall|a: int, b: int| 0 <= a < b < unsorted.len() implies unsorted[a].crate_id
        != unsorted[b].crate_id by {
        assert(selection.position@[selection.candidates@[a].crate_id] == a);
        assert(selection.position@[selection.candidates@[b].crate_id] == b);
    }
    sort_selected_versions(&mut versions);
    proof {
        let sorted = versions@;
        let p = choose|p: Seq<int>|
            permutes(p, unsorted.len()) && forall|i: int|
                0 <= i < unsorted.len() ==> #[trigger] sorted[i] == unsorted[p[i]];
        assert forall|a: int, b: int| 0 <= a < b < sorted.len() implies (
        #[trigger] sorted[a]).crate_id != (#[trigger] sorted[b]).crate_id by {
            assert(sorted[a] == unsorted[p[a]]);
            assert(sorted[b] == unsorted[p[b]]);
            assert(p[a] != p[b]);
        }
        assert forall|a: int| 0 <= a < sorted.len() implies {
            &&& selected.contains_key(#[trigger] sorted[a].crate_id)
            &&& crate_names@.contains_key(sorted[a].crate_id)
            &&& describes(sorted[a], selected[sorted[a].crate_id], crate_names@[sorted[a].crate_id]@)
        } by {
            assert(sorted[a] == unsorted[p[a]]);
            assert(0 <= p[a] < unsorted.len());
        }
        assert forall|k: u32| #[trigger] selected.contains_key(k) implies exists|a: int|
            0 <= a < sorted.len() && (#[trigger] sorted[a]).crate_id == k by {
            let c = selection.position@[k] as int;
            assert(unsorted[c].crate_id == k);
            assert(p.contains(c));
            let a = choose|a: int| 0 <= a < p.len() && p[a] == c;
            assert(sorted[a] == unsorted[p[a]]);
        }
    }
    versions
}

} // verus!
