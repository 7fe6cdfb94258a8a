//! Reading the CSV files of the crates.io database dump: tables, columns, fields, and
//! the textual values the dump uses.

use vstd::prelude::*;

use crate::text::{decimal_value, parse_u32_text, parse_u64_text, parse_u8_text, text_equals};

verus! {

/// A CSV file as read: whether its header row could be read, that row, the records after
/// it, and whether reading reached the end (`false` when a malformed record stopped it;
/// `rows` then holds the records before that one). When the header row could not be read,
/// `headers` and `rows` are empty and `complete` is `false`.
pub struct CsvTable {
    pub headers_read: bool,
    pub headers: Vec<String>,
    pub rows: Vec<Vec<String>>,
    pub complete: bool,
}

/// The mathematical content of a table.
pub struct TableModel {
    pub headers_read: bool,
    pub headers: Seq<Seq<char>>,
    pub rows: Seq<Seq<Seq<char>>>,
    pub complete: bool,
}

impl View for CsvTable {
    type V = TableModel;

    open spec fn view(&self) -> TableModel {
        TableModel {
            headers_read: self.headers_read,
            headers: self.headers.deep_view(),
            rows: self.rows.deep_view(),
            complete: self.complete,
        }
    }
}

/// What the `csv` crate reads from `data` with its default settings (a header row, comma
/// separated, double quotes, records of equal length).
pub uninterp spec fn csv_contents(data: Seq<u8>) -> TableModel;

/// `csv::Reader::from_reader(data)`: the header row (or that it could not be read), then the
/// records up to the first error. Claimed: the result is the one that the crate reads from these bytes.
#[verifier::external_body]
pub(crate) fn read_csv_table(data: &[u8]) -> (r: CsvTable)
    ensures
        r@ == csv_contents(data@),
{
    let mut reader = csv::Reader::from_reader(data);
    let headers: Vec<String> = match reader.headers() {
        Ok(h) => h.iter().map(String::from).collect(),
        Err(_) => return CsvTable { headers_read: false, headers: Vec::new(), rows: Vec::new(), complete: false },
    };
    let mut rows = Vec::new();
    for record in reader.records() {
        match record {
            Ok(r) => rows.push(r.iter().map(String::from).collect()),
            Err(_) => return CsvTable { headers_read: true, headers, rows, complete: false },
        }
    }
    CsvTable { headers_read: true, headers, rows, complete: true }
}

/// The file of the dump a value comes from.
#[derive(Clone, Copy, Debug, PartialEq, Eq, Structural)]
pub enum DumpFile {
    Crates,
    Versions,
    Dependencies,
}

/// The columns of the dump that the graph is built from.
#[derive(Clone, Copy, Debug, PartialEq, Eq, Structural)]
pub enum Column {
    Id,
    Name,
    CrateId,
    Num,
    NumNoBuild,
    Downloads,
    CreatedAt,
    Yanked,
    VersionId,
    Req,
    Kind,
    Optional,
    DefaultFeatures,
    Target,
}

pub open spec fn column_title(column: Column) -> Seq<char> {
    match column {
        Column::Id => seq!['i', 'd'],
        Column::Name => seq!['n', 'a', 'm', 'e'],
        Column::CrateId => seq!['c', 'r', 'a', 't', 'e', '_', 'i', 'd'],
        Column::Num => seq!['n', 'u', 'm'],
        Column::NumNoBuild => seq!['n', 'u', 'm', '_', 'n', 'o', '_', 'b', 'u', 'i', 'l', 'd'],
        Column::Downloads => seq!['d', 'o', 'w', 'n', 'l', 'o', 'a', 'd', 's'],
        Column::CreatedAt => seq!['c', 'r', 'e', 'a', 't', 'e', 'd', '_', 'a', 't'],
        Column::Yanked => seq!['y', 'a', 'n', 'k', 'e', 'd'],
        Column::VersionId => seq!['v', 'e', 'r', 's', 'i', 'o', 'n', '_', 'i', 'd'],
        Column::Req => seq!['r', 'e', 'q'],
        Column::Kind => seq!['k', 'i', 'n', 'd'],
        Column::Optional => seq!['o', 'p', 't', 'i', 'o', 'n', 'a', 'l'],
        Column::DefaultFeatures => seq![
            'd', 'e', 'f', 'a', 'u', 'l', 't', '_', 'f', 'e', 'a', 't', 'u', 'r', 'e', 's',
        ],
        Column::Target => seq!['t', 'a', 'r', 'g', 'e', 't'],
    }
}

impl Column {
    /// The column's title in the header row.
    pub fn title(self) -> (r: &'static str)
        ensures
            r@ == column_title(self),
    {
        match self {
            Column::Id => {
                proof {
                    reveal_strlit("id");
                }
                "id"
            },
            Column::Name => {
                proof {
                    reveal_strlit("name");
                }
                "name"
            },
            Column::CrateId => {
                proof {
                    reveal_strlit("crate_id");
                }
                "crate_id"
            },
            Column::Num => {
                proof {
                    reveal_strlit("num");
                }
                "num"
            },
            Column::NumNoBuild => {
                proof {
                    reveal_strlit("num_no_build");
                }
                "num_no_build"
            },
            Column::Downloads => {
                proof {
                    reveal_strlit("downloads");
                }
                "downloads"
            },
            Column::CreatedAt => {
                proof {
                    reveal_strlit("created_at");
                }
                "created_at"
            },
            Column::Yanked => {
                proof {
                    reveal_strlit("yanked");
                }
                "yanked"
            },
            Column::VersionId => {
                proof {
                    reveal_strlit("version_id");
                }
                "version_id"
            },
            Column::Req => {
                proof {
                    reveal_strlit("req");
                }
                "req"
            },
            Column::Kind => {
                proof {
                    reveal_strlit("kind");
                }
                "kind"
            },
            Column::Optional => {
                proof {
                    reveal_strlit("optional");
                }
                "optional"
            },
            Column::DefaultFeatures => {
                proof {
                    reveal_strlit("default_features");
                }
                "default_features"
            },
            Column::Target => {
                proof {
                    reveal_strlit("target");
                }
                "target"
            },
        }
    }
}

/// Why a graph could not be built from the dump.
#[derive(Clone, Copy, Debug, PartialEq, Eq, Structural)]
pub enum GraphBuildError {
    /// The header row of `file` lacks `column`.
    MissingColumn { file: DumpFile, column: Column },
    /// Record `row` of `file` has no field for `column`.
    MissingField { file: DumpFile, row: usize, column: Column },
    /// The field is not a number of the expected width.
    InvalidNumber { file: DumpFile, row: usize, column: Column },
    /// The field is neither `t` nor `f`.
    InvalidBool { file: DumpFile, row: usize, column: Column },
    /// `file` is not well-formed CSV, or its header row cannot be read.
    Csv { file: DumpFile },
    /// The graph would need more than `u32::MAX` nodes or edges, the most its `u32`
    /// indices reach.
    TooLarge,
}

/// The first position in `headers` that holds `title`.
pub open spec fn first_position(headers: Seq<Seq<char>>, title: Seq<char>) -> Option<nat>
    decreases headers.len(),
{
    if headers.len() == 0 {
        None
    } else {
        match first_position(headers.drop_last(), title) {
            Some(i) => Some(i),
            None => if headers.last() == title {
                Some((headers.len() - 1) as nat)
            } else {
                None
            },
        }
    }
}

/// The position of `column` in the header row of `file`.
pub fn required_column(headers: &Vec<String>, file: DumpFile, column: Column) -> (r: Result<
    usize,
    GraphBuildError,
>)
    ensures
        match first_position(headers.deep_view(), column_title(column)) {
            Some(i) => r == Ok::<usize, GraphBuildError>(i as usize),
            None => r == Err::<usize, GraphBuildError>(GraphBuildError::MissingColumn { file, column }),
        },
{
    let title = column.title();
    let ghost hs = headers.deep_view();
    let mut i: usize = 0;
    while i < headers.len()
        invariant
            i <= hs.len(),
            hs == headers.deep_view(),
            title@ == column_title(column),
            first_position(hs.take(i as int), title@) is None,
        decreases hs.len() - i,
    {
        assert(hs.take(i + 1).drop_last() =~= hs.take(i as int));
        if text_equals(headers[i].as_str(), title) {
            assert(first_position(hs.take(i + 1), title@) == Some(i as nat));
            proof {
                lemma_first_position_extends(hs, (i + 1) as nat, title@);
            }
            return Ok(i);
        }
        i = i + 1;
    }
    assert(hs.take(i as int) =~= hs);
    Err(GraphBuildError::MissingColumn { file, column })
}

/// A position found in a prefix stays the first position in the whole sequence.
proof fn lemma_first_position_extends(s: Seq<Seq<char>>, n: nat, title: Seq<char>)
    requires
        n <= s.len(),
        first_position(s.take(n as int), title) is Some,
    ensures
        first_position(s, title) == first_position(s.take(n as int), title),
    decreases s.len() - n,
{
    if n < s.len() {
        assert(s.take((n + 1) as int).drop_last() =~= s.take(n as int));
        lemma_first_position_extends(s, (n + 1) as nat, title);
    } else {
        assert(s.take(n as int) =~= s);
    }
}

/// Field `index` of `row`, or the error naming its column.
pub fn field(row: &Vec<String>, index: usize, file: DumpFile, row_number: usize, column: Column) -> (r: Result<&str, GraphBuildError>)
    ensures
        (index as int) < row@.len() ==> (r matches Ok(s) && s@ == row@[index as int]@),
        (index as int) >= row@.len() ==> r == Err::<&str, GraphBuildError>(
            GraphBuildError::MissingField { file, row: row_number, column },
        ),
{
    if index < row.len() {
        Ok(row[index].as_str())
    } else {
        Err(GraphBuildError::MissingField { file, row: row_number, column })
    }
}

/// An empty field stands for no value.
pub fn optional_string(value: &str) -> (r: Option<String>)
    ensures
        value@.len() == 0 ==> r is None,
        value@.len() > 0 ==> (r matches Some(s) && s@ == value@),
{
    if value.is_empty() {
        None
    } else {
        Some(value.to_owned())
    }
}

/// The dump writes booleans as `t` and `f`.
pub open spec fn dump_bool(value: Seq<char>) -> Option<bool> {
    if value == seq!['t'] {
        Some(true)
    } else if value == seq!['f'] {
        Some(false)
    } else {
        None
    }
}

pub fn parse_dump_bool(value: &str) -> (r: Option<bool>)
    ensures
        r == dump_bool(value@),
{
    proof {
        reveal_strlit("t");
        reveal_strlit("f");
        assert("t"@ =~= seq!['t']);
        assert("f"@ =~= seq!['f']);
    }
    if text_equals(value, "t") {
        Some(true)
    } else if text_equals(value, "f") {
        Some(false)
    } else {
        None
    }
}

/// The number a field holds when it fits in `max`.
pub open spec fn dump_number(value: Seq<char>, max: nat) -> Option<nat> {
    match decimal_value(value) {
        Some(n) => if n <= max {
            Some(n)
        } else {
            None
        },
        None => None,
    }
}

pub fn parse_u8(value: &str) -> (r: Option<u8>)
    ensures
        r == (match dump_number(value@, u8::MAX as nat) {
            Some(n) => Some(n as u8),
            None => None,
        }),
{
    parse_u8_text(value)
}

pub fn parse_u32(value: &str) -> (r: Option<u32>)
    ensures
        r == (match dump_number(value@, u32::MAX as nat) {
            Some(n) => Some(n as u32),
            None => None,
        }),
{
    parse_u32_text(value)
}

pub fn parse_u64(value: &str) -> (r: Option<u64>)
    ensures
        r == (match dump_number(value@, u64::MAX as nat) {
            Some(n) => Some(n as u64),
            None => None,
        }),
{
    parse_u64_text(value)
}

} // verus!
