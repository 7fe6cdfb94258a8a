//! The binary graph file format (magic `GCR1`) and the stored graph it holds.

use vstd::bytes::*;
use vstd::prelude::*;
use vstd::slice::*;
use vstd::utf8::*;

use vstd::hash_map::StringHashMap;

use crate::graph::{
    DependencyEntry, DependencyKind, PackageEntry, PackageGraph, code_of_kind, dependency_flags,
    kind_of_code,
};
use crate::text::{
    ascii_lowercase, ascii_lowercase_chars, equal_ignoring_ascii_case, lemma_lowercase_idempotent,
    string_from_utf8, trim_text, trimmed,
};

verus! {

/// The four bytes that open every graph file: `GCR1`.
pub const MAGIC: [u8; 4] = [71u8, 67u8, 82u8, 49u8];

/// The string index that marks an absent string (a dependency without a target).
pub const NO_STRING: u32 = 0xffff_ffffu32;

/// A package graph with every string stored once in a shared pool.
#[derive(Debug, Clone)]
pub struct StoredGraph {
    pub strings: Vec<String>,
    pub packages: Vec<StoredPackage>,
    pub dependencies: Vec<StoredDependency>,
}

#[derive(Clone, Copy, Debug, PartialEq, Eq, Structural)]
pub struct StoredPackage {
    pub crate_id: u32,
    pub name: u32,
    pub version: u32,
    pub downloads: u64,
    pub dependency_start: u32,
    pub dependency_count: u32,
}

#[derive(Clone, Copy, Debug, PartialEq, Eq, Structural)]
pub struct StoredDependency {
    pub package_index: u32,
    pub req: u32,
    pub target: u32,
    pub kind: u8,
    pub flags: u8,
}

#[derive(Clone, Copy, Debug, PartialEq, Eq, Structural)]
pub struct GraphStats {
    pub package_count: usize,
    pub dependency_count: usize,
}

/// What can go wrong while reading a graph file.
#[derive(Clone, Copy, Debug, PartialEq, Eq, Structural)]
pub enum FormatError {
    /// The input ended before a value was complete.
    UnexpectedEnd,
    /// The input does not start with `GCR1`.
    InvalidMagic,
    /// A pooled string is not valid UTF-8.
    InvalidUtf8,
}

/// The mathematical content of a stored graph.
pub struct GraphModel {
    pub strings: Seq<Seq<char>>,
    pub packages: Seq<StoredPackage>,
    pub dependencies: Seq<StoredDependency>,
}

impl View for StoredGraph {
    type V = GraphModel;

    open spec fn view(&self) -> GraphModel {
        GraphModel {
            strings: self.strings@.map_values(|s: String| s@),
            packages: self.packages@,
            dependencies: self.dependencies@,
        }
    }
}

// ---------------------------------------------------------------------------
// The encoding, as a function from graphs to bytes.
// ---------------------------------------------------------------------------

pub open spec fn magic_bytes() -> Seq<u8> {
    seq![71u8, 67u8, 82u8, 49u8]
}

pub open spec fn encode_u16(v: u16) -> Seq<u8> {
    spec_u16_to_le_bytes(v)
}

pub open spec fn encode_u32(v: u32) -> Seq<u8> {
    spec_u32_to_le_bytes(v)
}

pub open spec fn encode_u64(v: u64) -> Seq<u8> {
    spec_u64_to_le_bytes(v)
}

/// A byte string: its length as a `u32`, then the bytes.
pub open spec fn encode_bytes(bytes: Seq<u8>) -> Seq<u8> {
    encode_u32(bytes.len() as u32) + bytes
}

pub open spec fn encode_string(s: Seq<char>) -> Seq<u8> {
    encode_bytes(encode_utf8(s))
}

pub open spec fn encode_package(p: StoredPackage) -> Seq<u8> {
    encode_u32(p.crate_id) + encode_u32(p.name) + encode_u32(p.version) + encode_u64(p.downloads)
        + encode_u32(p.dependency_start) + encode_u32(p.dependency_count)
}

/// A dependency record: three indices, kind, flags and a reserved zero `u16`.
pub open spec fn encode_dependency(d: StoredDependency) -> Seq<u8> {
    encode_u32(d.package_index) + encode_u32(d.req) + encode_u32(d.target) + seq![d.kind]
        + seq![d.flags] + encode_u16(0)
}

pub open spec fn encode_strings(strings: Seq<Seq<char>>) -> Seq<u8>
    decreases strings.len(),
{
    if strings.len() == 0 {
        seq![]
    } else {
        encode_strings(strings.drop_last()) + encode_string(strings.last())
    }
}

pub open spec fn encode_packages(packages: Seq<StoredPackage>) -> Seq<u8>
    decreases packages.len(),
{
    if packages.len() == 0 {
        seq![]
    } else {
        encode_packages(packages.drop_last()) + encode_package(packages.last())
    }
}

pub open spec fn encode_dependencies(dependencies: Seq<StoredDependency>) -> Seq<u8>
    decreases dependencies.len(),
{
    if dependencies.len() == 0 {
        seq![]
    } else {
        encode_dependencies(dependencies.drop_last()) + encode_dependency(dependencies.last())
    }
}

/// The whole file: magic, the three counts, then strings, packages and dependencies.
pub open spec fn encode_graph(g: GraphModel) -> Seq<u8> {
    magic_bytes() + encode_u32(g.strings.len() as u32) + encode_u32(g.packages.len() as u32)
        + encode_u32(g.dependencies.len() as u32) + encode_strings(g.strings) + encode_packages(
        g.packages,
    ) + encode_dependencies(g.dependencies)
}

// ---------------------------------------------------------------------------
// Writing.
// ---------------------------------------------------------------------------

fn write_u8(out: &mut Vec<u8>, value: u8)
    ensures
        final(out)@ == old(out)@ + seq![value],
{
    out.push(value);
}

fn write_u16(out: &mut Vec<u8>, value: u16)
    ensures
        final(out)@ == old(out)@ + encode_u16(value),
{
    let mut bytes = u16_to_le_bytes(value);
    out.append(&mut bytes);
}

fn write_u32(out: &mut Vec<u8>, value: u32)
    ensures
        final(out)@ == old(out)@ + encode_u32(value),
{
    let mut bytes = u32_to_le_bytes(value);
    out.append(&mut bytes);
}

fn write_u64(out: &mut Vec<u8>, value: u64)
    ensures
        final(out)@ == old(out)@ + encode_u64(value),
{
    let mut bytes = u64_to_le_bytes(value);
    out.append(&mut bytes);
}

fn write_bytes(out: &mut Vec<u8>, bytes: &[u8])
    ensures
        final(out)@ == old(out)@ + encode_bytes(bytes@),
{
    write_u32(out, bytes.len() as u32);
    let ghost start = out@;
    let mut i: usize = 0;
    while i < bytes.len()
        invariant
            i <= bytes@.len(),
            out@ == start + bytes@.subrange(0, i as int),
        decreases bytes@.len() - i,
    {
        out.push(bytes[i]);
        i = i + 1;
        assert(out@ == start + bytes@.subrange(0, i as int));
    }
    assert(bytes@.subrange(0, bytes@.len() as int) == bytes@);
}

fn write_package(out: &mut Vec<u8>, package: &StoredPackage)
    ensures
        final(out)@ == old(out)@ + encode_package(*package),
{
    write_u32(out, package.crate_id);
    write_u32(out, package.name);
    write_u32(out, package.version);
    write_u64(out, package.downloads);
    write_u32(out, package.dependency_start);
    write_u32(out, package.dependency_count);
}

fn write_dependency(out: &mut Vec<u8>, dependency: &StoredDependency)
    ensures
        final(out)@ == old(out)@ + encode_dependency(*dependency),
{
    write_u32(out, dependency.package_index);
    write_u32(out, dependency.req);
    write_u32(out, dependency.target);
    write_u8(out, dependency.kind);
    write_u8(out, dependency.flags);
    write_u16(out, 0);
}

fn write_strings(out: &mut Vec<u8>, strings: &Vec<String>)
    ensures
        final(out)@ == old(out)@ + encode_strings(strings@.map_values(|s: String| s@)),
{
    let ghost start = out@;
    let ghost model = strings@.map_values(|s: String| s@);
    let mut i: usize = 0;
    while i < strings.len()
        invariant
            i <= strings@.len(),
            model == strings@.map_values(|s: String| s@),
            out@ == start + encode_strings(model.take(i as int)),
        decreases strings@.len() - i,
    {
        write_bytes(out, strings[i].as_str().as_bytes());
        i = i + 1;
        assert(model.take(i as int).drop_last() == model.take(i - 1));
    }
    assert(model.take(i as int) == model);
}

fn write_packages(out: &mut Vec<u8>, packages: &Vec<StoredPackage>)
    ensures
        final(out)@ == old(out)@ + encode_packages(packages@),
{
    let ghost start = out@;
    let mut i: usize = 0;
    while i < packages.len()
        invariant
            i <= packages@.len(),
            out@ == start + encode_packages(packages@.take(i as int)),
        decreases packages@.len() - i,
    {
        write_package(out, &packages[i]);
        i = i + 1;
        assert(packages@.take(i as int).drop_last() == packages@.take(i - 1));
    }
    assert(packages@.take(i as int) == packages@);
}

fn write_dependencies(out: &mut Vec<u8>, dependencies: &Vec<StoredDependency>)
    ensures
        final(out)@ == old(out)@ + encode_dependencies(dependencies@),
{
    let ghost start = out@;
    let mut i: usize = 0;
    while i < dependencies.len()
        invariant
            i <= dependencies@.len(),
            out@ == start + encode_dependencies(dependencies@.take(i as int)),
        decreases dependencies@.len() - i,
    {
        write_dependency(out, &dependencies[i]);
        i = i + 1;
        assert(dependencies@.take(i as int).drop_last() == dependencies@.take(i - 1));
    }
    assert(dependencies@.take(i as int) == dependencies@);
}

impl StoredGraph {
    /// Appends the encoding of the graph to `writer`. Writing to memory cannot fail.
    pub fn write_to(&self, writer: &mut Vec<u8>) -> (r: Result<(), FormatError>)
        ensures
            r is Ok,
            final(writer)@ == old(writer)@ + encode_graph(self@),
    {
        let ghost start = writer@;
        write_u8(writer, MAGIC[0]);
        write_u8(writer, MAGIC[1]);
        write_u8(writer, MAGIC[2]);
        write_u8(writer, MAGIC[3]);
        assert(writer@ == start + magic_bytes());
        write_u32(writer, self.strings.len() as u32);
        write_u32(writer, self.packages.len() as u32);
        write_u32(writer, self.dependencies.len() as u32);
        write_strings(writer, &self.strings);
        write_packages(writer, &self.packages);
        write_dependencies(writer, &self.dependencies);
        Ok(())
    }
}

// ---------------------------------------------------------------------------
// The decoding, as a function from bytes to graphs.
//
// Each decoder gives back what it read and the input that follows it; on
// failure it gives the error and the input that is left after the failed read:
// a read past the end leaves nothing, as reading from a byte slice does.
// ---------------------------------------------------------------------------

pub type Decoded<T> = Result<(T, Seq<u8>), (FormatError, Seq<u8>)>;

pub open spec fn decode_exact(s: Seq<u8>, n: nat) -> Decoded<Seq<u8>> {
    if s.len() >= n {
        Ok((s.take(n as int), s.skip(n as int)))
    } else {
        Err((FormatError::UnexpectedEnd, Seq::empty()))
    }
}

pub open spec fn decode_u32(s: Seq<u8>) -> Decoded<u32> {
    if s.len() >= 4 {
        Ok((spec_u32_from_le_bytes(s.take(4)), s.skip(4)))
    } else {
        Err((FormatError::UnexpectedEnd, Seq::empty()))
    }
}

pub open spec fn decode_string(s: Seq<u8>) -> Decoded<Seq<char>> {
    match decode_u32(s) {
        Err(e) => Err(e),
        Ok((n, rest)) => match decode_exact(rest, n as nat) {
            Err(e) => Err(e),
            Ok((bytes, after)) => if valid_utf8(bytes) {
                Ok((decode_utf8(bytes), after))
            } else {
                Err((FormatError::InvalidUtf8, after))
            },
        },
    }
}

/// Bytes in one package record.
pub const PACKAGE_RECORD_LEN: usize = 28;

/// Bytes in one dependency record.
pub const DEPENDENCY_RECORD_LEN: usize = 16;

pub open spec fn decode_package(s: Seq<u8>) -> Decoded<StoredPackage> {
    if s.len() >= PACKAGE_RECORD_LEN as nat {
        Ok((
            StoredPackage {
                crate_id: spec_u32_from_le_bytes(s.subrange(0, 4)),
                name: spec_u32_from_le_bytes(s.subrange(4, 8)),
                version: spec_u32_from_le_bytes(s.subrange(8, 12)),
                downloads: spec_u64_from_le_bytes(s.subrange(12, 20)),
                dependency_start: spec_u32_from_le_bytes(s.subrange(20, 24)),
                dependency_count: spec_u32_from_le_bytes(s.subrange(24, 28)),
            },
            s.skip(PACKAGE_RECORD_LEN as int),
        ))
    } else {
        Err((FormatError::UnexpectedEnd, Seq::empty()))
    }
}

/// The two bytes after the flags are reserved: they are read and ignored.
pub open spec fn decode_dependency(s: Seq<u8>) -> Decoded<StoredDependency> {
    if s.len() >= DEPENDENCY_RECORD_LEN as nat {
        Ok((
            StoredDependency {
                package_index: spec_u32_from_le_bytes(s.subrange(0, 4)),
                req: spec_u32_from_le_bytes(s.subrange(4, 8)),
                target: spec_u32_from_le_bytes(s.subrange(8, 12)),
                kind: s[12],
                flags: s[13],
            },
            s.skip(DEPENDENCY_RECORD_LEN as int),
        ))
    } else {
        Err((FormatError::UnexpectedEnd, Seq::empty()))
    }
}

pub open spec fn decode_strings(s: Seq<u8>, n: nat) -> Decoded<Seq<Seq<char>>>
    decreases n,
{
    if n == 0 {
        Ok((Seq::empty(), s))
    } else {
        match decode_strings(s, (n - 1) as nat) {
            Err(e) => Err(e),
            Ok((items, rest)) => match decode_string(rest) {
                Err(e) => Err(e),
                Ok((item, after)) => Ok((items.push(item), after)),
            },
        }
    }
}

pub open spec fn decode_packages(s: Seq<u8>, n: nat) -> Decoded<Seq<StoredPackage>>
    decreases n,
{
    if n == 0 {
        Ok((Seq::empty(), s))
    } else {
        match decode_packages(s, (n - 1) as nat) {
            Err(e) => Err(e),
            Ok((items, rest)) => match decode_package(rest) {
                Err(e) => Err(e),
                Ok((item, after)) => Ok((items.push(item), after)),
            },
        }
    }
}

pub open spec fn decode_dependencies(s: Seq<u8>, n: nat) -> Decoded<Seq<StoredDependency>>
    decreases n,
{
    if n == 0 {
        Ok((Seq::empty(), s))
    } else {
        match decode_dependencies(s, (n - 1) as nat) {
            Err(e) => Err(e),
            Ok((items, rest)) => match decode_dependency(rest) {
                Err(e) => Err(e),
                Ok((item, after)) => Ok((items.push(item), after)),
            },
        }
    }
}

/// The three counts that follow the magic.
pub open spec fn decode_counts(s: Seq<u8>) -> Decoded<(u32, u32, u32)> {
    if s.len() >= 12 {
        Ok((
            (
                spec_u32_from_le_bytes(s.subrange(0, 4)),
                spec_u32_from_le_bytes(s.subrange(4, 8)),
                spec_u32_from_le_bytes(s.subrange(8, 12)),
            ),
            s.skip(12),
        ))
    } else {
        Err((FormatError::UnexpectedEnd, Seq::empty()))
    }
}

pub open spec fn decode_graph(s: Seq<u8>) -> Decoded<GraphModel> {
    if s.len() < 4 {
        Err((FormatError::UnexpectedEnd, Seq::empty()))
    } else if s.take(4) != magic_bytes() {
        Err((FormatError::InvalidMagic, s.skip(4)))
    } else {
        match decode_counts(s.skip(4)) {
            Err(e) => Err(e),
            Ok(((n_strings, n_packages, n_dependencies), rest)) => match decode_strings(
                rest,
                n_strings as nat,
            ) {
                Err(e) => Err(e),
                Ok((strings, rest)) => match decode_packages(rest, n_packages as nat) {
                    Err(e) => Err(e),
                    Ok((packages, rest)) => match decode_dependencies(
                        rest,
                        n_dependencies as nat,
                    ) {
                        Err(e) => Err(e),
                        Ok((dependencies, rest)) => Ok(
                            (GraphModel { strings, packages, dependencies }, rest),
                        ),
                    },
                },
            },
        }
    }
}

// ---------------------------------------------------------------------------
// Decoding undoes encoding.
// ---------------------------------------------------------------------------

/// What the format can hold: every count, and every string's byte length, fits in a `u32`.
pub open spec fn graph_encodable(g: GraphModel) -> bool {
    &&& g.strings.len() <= u32::MAX
    &&& g.packages.len() <= u32::MAX
    &&& g.dependencies.len() <= u32::MAX
    &&& forall|i: int| 0 <= i < g.strings.len() ==> encode_utf8(#[trigger] g.strings[i]).len() <= u32::MAX
}

proof fn lemma_decode_u32(v: u32, rest: Seq<u8>)
    ensures
        encode_u32(v).len() == 4,
        decode_u32(encode_u32(v) + rest) == Decoded::Ok((v, rest)),
{
    lemma_auto_spec_u32_to_from_le_bytes();
    let s = encode_u32(v) + rest;
    assert(s.take(4) =~= encode_u32(v));
    assert(s.skip(4) =~= rest);
}

proof fn lemma_decode_string(x: Seq<char>, rest: Seq<u8>)
    requires
        encode_utf8(x).len() <= u32::MAX,
    ensures
        decode_string(encode_string(x) + rest) == Decoded::Ok((x, rest)),
{
    let bytes = encode_utf8(x);
    let n = bytes.len() as u32;
    lemma_decode_u32(n, bytes + rest);
    assert(encode_string(x) + rest =~= encode_u32(n) + (bytes + rest));
    assert((bytes + rest).take(n as int) =~= bytes);
    assert((bytes + rest).skip(n as int) =~= rest);
    encode_utf8_valid_utf8(x);
    encode_utf8_decode_utf8(x);
}

proof fn lemma_decode_package(p: StoredPackage, rest: Seq<u8>)
    ensures
        encode_package(p).len() == PACKAGE_RECORD_LEN,
        decode_package(encode_package(p) + rest) == Decoded::Ok((p, rest)),
{
    lemma_auto_spec_u32_to_from_le_bytes();
    lemma_auto_spec_u64_to_from_le_bytes();
    let s = encode_package(p) + rest;
    assert(s.subrange(0, 4) =~= encode_u32(p.crate_id));
    assert(s.subrange(4, 8) =~= encode_u32(p.name));
    assert(s.subrange(8, 12) =~= encode_u32(p.version));
    assert(s.subrange(12, 20) =~= encode_u64(p.downloads));
    assert(s.subrange(20, 24) =~= encode_u32(p.dependency_start));
    assert(s.subrange(24, 28) =~= encode_u32(p.dependency_count));
    assert(s.skip(28) =~= rest);
}

proof fn lemma_decode_dependency(d: StoredDependency, rest: Seq<u8>)
    ensures
        encode_dependency(d).len() == DEPENDENCY_RECORD_LEN,
        decode_dependency(encode_dependency(d) + rest) == Decoded::Ok((d, rest)),
{
    lemma_auto_spec_u32_to_from_le_bytes();
    lemma_auto_spec_u16_to_from_le_bytes();
    let s = encode_dependency(d) + rest;
    assert(s.subrange(0, 4) =~= encode_u32(d.package_index));
    assert(s.subrange(4, 8) =~= encode_u32(d.req));
    assert(s.subrange(8, 12) =~= encode_u32(d.target));
    assert(s[12] == d.kind);
    assert(s[13] == d.flags);
    assert(s.skip(16) =~= rest);
}

proof fn lemma_decode_strings(items: Seq<Seq<char>>, rest: Seq<u8>)
    requires
        forall|i: int| 0 <= i < items.len() ==> encode_utf8(#[trigger] items[i]).len() <= u32::MAX,
    ensures
        decode_strings(encode_strings(items) + rest, items.len()) == Decoded::Ok((items, rest)),
    decreases items.len(),
{
    if items.len() > 0 {
        let init = items.drop_last();
        let last = items.last();
        assert(encode_utf8(items[items.len() - 1]).len() <= u32::MAX);
        lemma_decode_strings(init, encode_string(last) + rest);
        assert(encode_strings(items) + rest =~= encode_strings(init) + (encode_string(last) + rest));
        lemma_decode_string(last, rest);
        assert(init.push(last) =~= items);
    } else {
        assert(encode_strings(items) + rest =~= rest);
        assert(items =~= Seq::<Seq<char>>::empty());
    }
}

proof fn lemma_decode_packages(items: Seq<StoredPackage>, rest: Seq<u8>)
    ensures
        decode_packages(encode_packages(items) + rest, items.len()) == Decoded::Ok((items, rest)),
    decreases items.len(),
{
    if items.len() > 0 {
        let init = items.drop_last();
        let last = items.last();
        lemma_decode_packages(init, encode_package(last) + rest);
        assert(encode_packages(items) + rest =~= encode_packages(init) + (encode_package(last) + rest));
        lemma_decode_package(last, rest);
        assert(init.push(last) =~= items);
    } else {
        assert(encode_packages(items) + rest =~= rest);
        assert(items =~= Seq::<StoredPackage>::empty());
    }
}

proof fn lemma_decode_dependencies(items: Seq<StoredDependency>, rest: Seq<u8>)
    ensures
        decode_dependencies(encode_dependencies(items) + rest, items.len()) == Decoded::Ok(
            (items, rest),
        ),
    decreases items.len(),
{
    if items.len() > 0 {
        let init = items.drop_last();
        let last = items.last();
        lemma_decode_dependencies(init, encode_dependency(last) + rest);
        assert(encode_dependencies(items) + rest =~= encode_dependencies(init) + (
        encode_dependency(last) + rest));
        lemma_decode_dependency(last, rest);
        assert(init.push(last) =~= items);
    } else {
        assert(encode_dependencies(items) + rest =~= rest);
        assert(items =~= Seq::<StoredDependency>::empty());
    }
}

/// Reading back what was written gives the same graph, and leaves whatever followed it
/// unread, for every graph whose counts and string lengths fit the format.
pub proof fn lemma_read_after_write(g: GraphModel, rest: Seq<u8>)
    requires
        graph_encodable(g),
    ensures
        decode_graph(encode_graph(g) + rest) == Decoded::Ok((g, rest)),
{
    lemma_auto_spec_u32_to_from_le_bytes();
    let body = encode_strings(g.strings) + encode_packages(g.packages) + encode_dependencies(
        g.dependencies,
    ) + rest;
    let counts = encode_u32(g.strings.len() as u32) + encode_u32(g.packages.len() as u32)
        + encode_u32(g.dependencies.len() as u32);
    let s = encode_graph(g) + rest;
    assert(s =~= magic_bytes() + (counts + body));
    assert(s.take(4) =~= magic_bytes());
    assert(s.skip(4) =~= counts + body);
    let c = counts + body;
    assert(c.subrange(0, 4) =~= encode_u32(g.strings.len() as u32));
    assert(c.subrange(4, 8) =~= encode_u32(g.packages.len() as u32));
    assert(c.subrange(8, 12) =~= encode_u32(g.dependencies.len() as u32));
    assert(c.skip(12) =~= body);
    let after_strings = encode_packages(g.packages) + encode_dependencies(g.dependencies) + rest;
    assert(body =~= encode_strings(g.strings) + after_strings);
    lemma_decode_strings(g.strings, after_strings);
    let after_packages = encode_dependencies(g.dependencies) + rest;
    assert(after_strings =~= encode_packages(g.packages) + after_packages);
    lemma_decode_packages(g.packages, after_packages);
    lemma_decode_dependencies(g.dependencies, rest);
}

// ---------------------------------------------------------------------------
// Reading.
//
// Each reader starts at `pos` in `data` and gives back the position after what it
// read, or the error and the position the input is left at.
// ---------------------------------------------------------------------------

/// `r` is what the decoder `d` gives on `data.skip(pos)`, with positions for remainders.
pub open spec fn read_agrees<T>(
    data: Seq<u8>,
    r: Result<(T, usize), (FormatError, usize)>,
    d: Decoded<T>,
) -> bool {
    match r {
        Ok((v, p)) => p <= data.len() && d == Decoded::Ok((v, data.skip(p as int))),
        Err((e, p)) => p <= data.len() && d == Decoded::<T>::Err((e, data.skip(p as int))),
    }
}

fn read_u32_at(data: &[u8], pos: usize) -> (r: Result<(u32, usize), (FormatError, usize)>)
    requires
        pos <= data@.len(),
    ensures
        read_agrees(data@, r, decode_u32(data@.skip(pos as int))),
        r matches Ok((_, p)) ==> p == pos + 4,
{
    if data.len() - pos < 4 {
        assert(data@.skip(data@.len() as int) =~= Seq::<u8>::empty());
        return Err((FormatError::UnexpectedEnd, data.len()));
    }
    let v = u32_from_le_bytes(slice_subrange(data, pos, pos + 4));
    assert(data@.subrange(pos as int, pos + 4) =~= data@.skip(pos as int).take(4));
    assert(data@.skip(pos + 4) =~= data@.skip(pos as int).skip(4));
    Ok((v, pos + 4))
}

fn read_string_at(data: &[u8], pos: usize) -> (r: Result<(String, usize), (FormatError, usize)>)
    requires
        pos <= data@.len(),
    ensures
        match r {
            Ok((v, p)) => p <= data@.len() && decode_string(data@.skip(pos as int)) == Decoded::Ok(
                (v@, data@.skip(p as int)),
            ),
            Err((e, p)) => p <= data@.len() && decode_string(data@.skip(pos as int))
                == Decoded::<Seq<char>>::Err((e, data@.skip(p as int))),
        },
{
    let (n, p) = match read_u32_at(data, pos) {
        Ok(x) => x,
        Err(e) => return Err(e),
    };
    let len = n as usize;
    if len > data.len() - p {
        assert(data@.skip(data@.len() as int) =~= Seq::<u8>::empty());
        return Err((FormatError::UnexpectedEnd, data.len()));
    }
    let bytes = slice_to_vec(slice_subrange(data, p, p + len));
    assert(bytes@ =~= data@.skip(p as int).take(len as int));
    assert(data@.skip(p + len) =~= data@.skip(p as int).skip(len as int));
    match string_from_utf8(bytes) {
        Some(s) => Ok((s, p + len)),
        None => Err((FormatError::InvalidUtf8, p + len)),
    }
}

fn read_package_at(data: &[u8], pos: usize) -> (r: Result<(StoredPackage, usize), (FormatError, usize)>)
    requires
        pos <= data@.len(),
    ensures
        read_agrees(data@, r, decode_package(data@.skip(pos as int))),
{
    if data.len() - pos < PACKAGE_RECORD_LEN {
        assert(data@.skip(data@.len() as int) =~= Seq::<u8>::empty());
        return Err((FormatError::UnexpectedEnd, data.len()));
    }
    let ghost s = data@.skip(pos as int);
    let package = StoredPackage {
        crate_id: u32_from_le_bytes(slice_subrange(data, pos, pos + 4)),
        name: u32_from_le_bytes(slice_subrange(data, pos + 4, pos + 8)),
        version: u32_from_le_bytes(slice_subrange(data, pos + 8, pos + 12)),
        downloads: u64_from_le_bytes(slice_subrange(data, pos + 12, pos + 20)),
        dependency_start: u32_from_le_bytes(slice_subrange(data, pos + 20, pos + 24)),
        dependency_count: u32_from_le_bytes(slice_subrange(data, pos + 24, pos + 28)),
    };
    assert(data@.subrange(pos as int, pos + 4) =~= s.subrange(0, 4));
    assert(data@.subrange(pos + 4, pos + 8) =~= s.subrange(4, 8));
    assert(data@.subrange(pos + 8, pos + 12) =~= s.subrange(8, 12));
    assert(data@.subrange(pos + 12, pos + 20) =~= s.subrange(12, 20));
    assert(data@.subrange(pos + 20, pos + 24) =~= s.subrange(20, 24));
    assert(data@.subrange(pos + 24, pos + 28) =~= s.subrange(24, 28));
    assert(data@.skip(pos + 28) =~= s.skip(28));
    Ok((package, pos + PACKAGE_RECORD_LEN))
}

fn read_dependency_at(data: &[u8], pos: usize) -> (r: Result<
    (StoredDependency, usize),
    (FormatError, usize),
>)
    requires
        pos <= data@.len(),
    ensures
        read_agrees(data@, r, decode_dependency(data@.skip(pos as int))),
{
    if data.len() - pos < DEPENDENCY_RECORD_LEN {
        assert(data@.skip(data@.len() as int) =~= Seq::<u8>::empty());
        return Err((FormatError::UnexpectedEnd, data.len()));
    }
    let ghost s = data@.skip(pos as int);
    let dependency = StoredDependency {
        package_index: u32_from_le_bytes(slice_subrange(data, pos, pos + 4)),
        req: u32_from_le_bytes(slice_subrange(data, pos + 4, pos + 8)),
        target: u32_from_le_bytes(slice_subrange(data, pos + 8, pos + 12)),
        kind: data[pos + 12],
        flags: data[pos + 13],
    };
    assert(data@.subrange(pos as int, pos + 4) =~= s.subrange(0, 4));
    assert(data@.subrange(pos + 4, pos + 8) =~= s.subrange(4, 8));
    assert(data@.subrange(pos + 8, pos + 12) =~= s.subrange(8, 12));
    assert(data@.skip(pos + 16) =~= s.skip(16));
    Ok((dependency, pos + DEPENDENCY_RECORD_LEN))
}

proof fn lemma_strings_error_persists(s: Seq<u8>, k: nat, m: nat)
    requires
        k <= m,
        decode_strings(s, k) is Err,
    ensures
        decode_strings(s, m) == decode_strings(s, k),
    decreases m,
{
    if m > k {
        lemma_strings_error_persists(s, k, (m - 1) as nat);
    }
}

proof fn lemma_packages_error_persists(s: Seq<u8>, k: nat, m: nat)
    requires
        k <= m,
        decode_packages(s, k) is Err,
    ensures
        decode_packages(s, m) == decode_packages(s, k),
    decreases m,
{
    if m > k {
        lemma_packages_error_persists(s, k, (m - 1) as nat);
    }
}

proof fn lemma_dependencies_error_persists(s: Seq<u8>, k: nat, m: nat)
    requires
        k <= m,
        decode_dependencies(s, k) is Err,
    ensures
        decode_dependencies(s, m) == decode_dependencies(s, k),
    decreases m,
{
    if m > k {
        lemma_dependencies_error_persists(s, k, (m - 1) as nat);
    }
}

fn read_strings_at(data: &[u8], pos: usize, count: u32) -> (r: Result<
    (Vec<String>, usize),
    (FormatError, usize),
>)
    requires
        pos <= data@.len(),
    ensures
        match r {
            Ok((v, p)) => p <= data@.len() && decode_strings(data@.skip(pos as int), count as nat)
                == Decoded::Ok((v@.map_values(|s: String| s@), data@.skip(p as int))),
            Err((e, p)) => p <= data@.len() && decode_strings(
                data@.skip(pos as int),
                count as nat,
            ) == Decoded::<Seq<Seq<char>>>::Err((e, data@.skip(p as int))),
        },
{
    let ghost s = data@.skip(pos as int);
    let mut items: Vec<String> = Vec::new();
    let mut p = pos;
    let mut i: u32 = 0;
    assert(items@.map_values(|s: String| s@) =~= Seq::<Seq<char>>::empty());
    while i < count
        invariant
            i <= count,
            p <= data@.len(),
            s == data@.skip(pos as int),
            decode_strings(s, i as nat) == Decoded::Ok(
                (items@.map_values(|s: String| s@), data@.skip(p as int)),
            ),
        decreases count - i,
    {
        match read_string_at(data, p) {
            Ok((item, next)) => {
                let ghost before = items@;
                items.push(item);
                assert(items@.map_values(|s: String| s@) =~= before.map_values(|s: String| s@).push(
                    item@,
                ));
                p = next;
            },
            Err((e, at)) => {
                proof {
                    lemma_strings_error_persists(s, (i + 1) as nat, count as nat);
                }
                return Err((e, at));
            },
        }
        i = i + 1;
    }
    Ok((items, p))
}

fn read_packages_at(data: &[u8], pos: usize, count: u32) -> (r: Result<
    (Vec<StoredPackage>, usize),
    (FormatError, usize),
>)
    requires
        pos <= data@.len(),
    ensures
        match r {
            Ok((v, p)) => read_agrees(
                data@,
                Ok::<(Seq<StoredPackage>, usize), (FormatError, usize)>((v@, p)),
                decode_packages(data@.skip(pos as int), count as nat),
            ),
            Err(e) => read_agrees(
                data@,
                Err::<(Seq<StoredPackage>, usize), (FormatError, usize)>(e),
                decode_packages(data@.skip(pos as int), count as nat),
            ),
        },
{
    let ghost s = data@.skip(pos as int);
    let mut items: Vec<StoredPackage> = Vec::new();
    let mut p = pos;
    let mut i: u32 = 0;
    while i < count
        invariant
            i <= count,
            p <= data@.len(),
            s == data@.skip(pos as int),
            decode_packages(s, i as nat) == Decoded::Ok((items@, data@.skip(p as int))),
        decreases count - i,
    {
        match read_package_at(data, p) {
            Ok((item, next)) => {
                items.push(item);
                p = next;
            },
            Err((e, at)) => {
                proof {
                    lemma_packages_error_persists(s, (i + 1) as nat, count as nat);
                }
                return Err((e, at));
            },
        }
        i = i + 1;
    }
    Ok((items, p))
}

fn read_dependencies_at(data: &[u8], pos: usize, count: u32) -> (r: Result<
    (Vec<StoredDependency>, usize),
    (FormatError, usize),
>)
    requires
        pos <= data@.len(),
    ensures
        match r {
            Ok((v, p)) => read_agrees(
                data@,
                Ok::<(Seq<StoredDependency>, usize), (FormatError, usize)>((v@, p)),
                decode_dependencies(data@.skip(pos as int), count as nat),
            ),
            Err(e) => read_agrees(
                data@,
                Err::<(Seq<StoredDependency>, usize), (FormatError, usize)>(e),
                decode_dependencies(data@.skip(pos as int), count as nat),
            ),
        },
{
    let ghost s = data@.skip(pos as int);
    let mut items: Vec<StoredDependency> = Vec::new();
    let mut p = pos;
    let mut i: u32 = 0;
    while i < count
        invariant
            i <= count,
            p <= data@.len(),
            s == data@.skip(pos as int),
            decode_dependencies(s, i as nat) == Decoded::Ok((items@, data@.skip(p as int))),
        decreases count - i,
    {
        match read_dependency_at(data, p) {
            Ok((item, next)) => {
                items.push(item);
                p = next;
            },
            Err((e, at)) => {
                proof {
                    lemma_dependencies_error_persists(s, (i + 1) as nat, count as nat);
                }
                return Err((e, at));
            },
        }
        i = i + 1;
    }
    Ok((items, p))
}

impl StoredGraph {
    /// Reads one graph from the front of `reader` and advances `reader` past it.
    /// On failure the error says why, and `reader` is left where reading stopped: empty
    /// when the input ran out, after the four magic bytes when they are wrong, after the
    /// offending string when it is not UTF-8.
    pub fn read_from(reader: &mut &[u8]) -> (r: Result<StoredGraph, FormatError>)
        ensures
            match decode_graph((*old(reader))@) {
                Decoded::Ok((g, rest)) => {
                    &&& r matches Ok(graph) && graph@ == g
                    &&& (*final(reader))@ == rest
                },
                Decoded::Err((e, rest)) => {
                    &&& r == Err::<StoredGraph, FormatError>(e)
                    &&& (*final(reader))@ == rest
                },
            },
    {
        let data: &[u8] = *reader;
        let ghost s = data@;
        let end = data.len();
        if end < 4 {
            *reader = slice_subrange(data, end, end);
            assert((*reader)@ =~= Seq::<u8>::empty());
            return Err(FormatError::UnexpectedEnd);
        }
        assert(data@.take(4) =~= seq![data@[0], data@[1], data@[2], data@[3]]);
        if data[0] != MAGIC[0] || data[1] != MAGIC[1] || data[2] != MAGIC[2] || data[3] != MAGIC[3] {
            *reader = slice_subrange(data, 4, end);
            assert((*reader)@ =~= s.skip(4));
            return Err(FormatError::InvalidMagic);
        }
        assert(data@.take(4) =~= magic_bytes());
        let ghost counts = decode_counts(s.skip(4));
        let (string_count, p) = match read_u32_at(data, 4) {
            Ok(x) => x,
            Err((e, at)) => {
                *reader = slice_subrange(data, at, end);
                assert((*reader)@ =~= Seq::<u8>::empty());
                return Err(e);
            },
        };
        let (package_count, p) = match read_u32_at(data, p) {
            Ok(x) => x,
            Err((e, at)) => {
                *reader = slice_subrange(data, at, end);
                assert((*reader)@ =~= Seq::<u8>::empty());
                return Err(e);
            },
        };
        let (dependency_count, p) = match read_u32_at(data, p) {
            Ok(x) => x,
            Err((e, at)) => {
                *reader = slice_subrange(data, at, end);
                assert((*reader)@ =~= Seq::<u8>::empty());
                return Err(e);
            },
        };
        assert(p == 16);
        assert(s.skip(4).subrange(0, 4) =~= s.skip(4).take(4));
        assert(s.skip(4).subrange(4, 8) =~= s.skip(8).take(4));
        assert(s.skip(4).subrange(8, 12) =~= s.skip(12).take(4));
        assert(s.skip(4).skip(12) =~= s.skip(16));
        assert(counts == Decoded::Ok(((string_count, package_count, dependency_count), s.skip(16))));
        let (strings, p) = match read_strings_at(data, p, string_count) {
            Ok(x) => x,
            Err((e, at)) => {
                *reader = slice_subrange(data, at, end);
                assert((*reader)@ =~= s.skip(at as int));
                return Err(e);
            },
        };
        let (packages, p) = match read_packages_at(data, p, package_count) {
            Ok(x) => x,
            Err((e, at)) => {
                *reader = slice_subrange(data, at, end);
                assert((*reader)@ =~= s.skip(at as int));
                return Err(e);
            },
        };
        let (dependencies, p) = match read_dependencies_at(data, p, dependency_count) {
            Ok(x) => x,
            Err((e, at)) => {
                *reader = slice_subrange(data, at, end);
                assert((*reader)@ =~= s.skip(at as int));
                return Err(e);
            },
        };
        *reader = slice_subrange(data, p, end);
        assert((*reader)@ =~= s.skip(p as int));
        Ok(StoredGraph { strings, packages, dependencies })
    }
}

// ---------------------------------------------------------------------------
// Queries.
// ---------------------------------------------------------------------------

/// Whether package `p` carries the name `query`, ignoring ASCII case.
pub open spec fn package_named(g: GraphModel, p: StoredPackage, query: Seq<char>) -> bool {
    &&& (p.name as int) < g.strings.len()
    &&& ascii_lowercase_chars(g.strings[p.name as int]) == ascii_lowercase_chars(query)
}

/// `a` ranks below `b`: fewer downloads, then fewer dependencies, then a larger crate id.
pub open spec fn ranks_below(a: StoredPackage, b: StoredPackage) -> bool {
    ||| a.downloads < b.downloads
    ||| a.downloads == b.downloads && a.dependency_count < b.dependency_count
    ||| a.downloads == b.downloads && a.dependency_count == b.dependency_count && a.crate_id
        > b.crate_id
}

/// The package that `package_by_name` picks among those named `query`: none of them ranks
/// above it, and of equals it is the last.
pub open spec fn is_best_named(g: GraphModel, query: Seq<char>, i: int) -> bool {
    &&& 0 <= i < g.packages.len()
    &&& package_named(g, g.packages[i], query)
    &&& forall|j: int|
        0 <= j < g.packages.len() && package_named(g, #[trigger] g.packages[j], query) ==> !ranks_below(
            g.packages[i],
            g.packages[j],
        )
    &&& forall|j: int|
        i < j < g.packages.len() && package_named(g, #[trigger] g.packages[j], query) ==> ranks_below(
            g.packages[j],
            g.packages[i],
        )
}

pub open spec fn stored_optional(flags: u8) -> bool {
    flags & 1u8 != 0
}

pub open spec fn stored_uses_default_features(flags: u8) -> bool {
    flags & 2u8 != 0
}

impl StoredGraph {
    pub fn stats(&self) -> (r: GraphStats)
        ensures
            r.package_count == self.packages@.len(),
            r.dependency_count == self.dependencies@.len(),
    {
        GraphStats { package_count: self.packages.len(), dependency_count: self.dependencies.len() }
    }

    /// The pooled string at `index`, if there is one.
    pub fn resolve(&self, index: u32) -> (r: Option<&str>)
        ensures
            r is Some <==> (index as int) < self@.strings.len(),
            r matches Some(s) ==> s@ == self@.strings[index as int],
    {
        let i = index as usize;
        if i < self.strings.len() {
            Some(self.strings[i].as_str())
        } else {
            None
        }
    }

    /// The package whose name equals `name` (trimmed) ignoring ASCII case; among several,
    /// the one with most downloads, then most dependencies, then the smallest crate id,
    /// and of exact ties the last. A blank name finds nothing.
    pub fn package_by_name(&self, name: &str) -> (r: Option<(usize, &StoredPackage)>)
        ensures
            trimmed(name@).len() == 0 ==> r is None,
            trimmed(name@).len() > 0 ==> (r is None <==> !exists|j: int|
                0 <= j < self@.packages.len() && package_named(
                    self@,
                    #[trigger] self@.packages[j],
                    trimmed(name@),
                )),
            r matches Some((i, p)) ==> {
                &&& *p == self@.packages[i as int]
                &&& is_best_named(self@, trimmed(name@), i as int)
            },
    {
        let query = trim_text(name);
        if query.is_empty() {
            return None;
        }
        let query_lower = ascii_lowercase(query);
        let ghost q = query@;
        let ghost g = self@;
        let mut best: Option<usize> = None;
        let mut j: usize = 0;
        while j < self.packages.len()
            invariant
                j <= self.packages@.len(),
                g == self@,
                q == trimmed(name@),
                query_lower@ == ascii_lowercase_chars(q),
                best is None ==> forall|k: int|
                    0 <= k < j ==> !package_named(g, #[trigger] g.packages[k], q),
                best matches Some(b) ==> {
                    &&& b < j
                    &&& package_named(g, g.packages[b as int], q)
                    &&& forall|k: int|
                        0 <= k < j && package_named(g, #[trigger] g.packages[k], q) ==> !ranks_below(
                            g.packages[b as int],
                            g.packages[k],
                        )
                    &&& forall|k: int|
                        b < k < j && package_named(g, #[trigger] g.packages[k], q) ==> ranks_below(
                            g.packages[k],
                            g.packages[b as int],
                        )
                },
            decreases self.packages@.len() - j,
        {
            let package = &self.packages[j];
            let named = match self.resolve(package.name) {
                Some(candidate) => equal_ignoring_ascii_case(candidate, query_lower.as_str()),
                None => false,
            };
            proof {
                lemma_lowercase_idempotent(q);
            }
            if named {
                match best {
                    None => {
                        best = Some(j);
                    },
                    Some(b) => {
                        let current = &self.packages[b];
                        let below = package.downloads < current.downloads || (package.downloads
                            == current.downloads && package.dependency_count
                            < current.dependency_count) || (package.downloads == current.downloads
                            && package.dependency_count == current.dependency_count
                            && package.crate_id > current.crate_id);
                        if !below {
                            best = Some(j);
                        }
                    },
                }
            }
            j = j + 1;
        }
        match best {
            None => None,
            Some(b) => Some((b, &self.packages[b])),
        }
    }

    /// The dependencies that `package` owns.
    pub fn dependency_slice(&self, package: &StoredPackage) -> (r: &[StoredDependency])
        requires
            package.dependency_start + package.dependency_count <= self@.dependencies.len(),
        ensures
            r@ == self@.dependencies.subrange(
                package.dependency_start as int,
                package.dependency_start + package.dependency_count,
            ),
    {
        let start = package.dependency_start as usize;
        assert(self.dependencies@.len() == self.dependencies.len());
        let end = start + package.dependency_count as usize;
        slice_subrange(self.dependencies.as_slice(), start, end)
    }
}

impl StoredDependency {
    pub fn kind(&self) -> (r: DependencyKind)
        ensures
            r == kind_of_code(self.kind),
    {
        DependencyKind::from_code(self.kind)
    }

    pub fn optional(&self) -> (r: bool)
        ensures
            r == stored_optional(self.flags),
    {
        self.flags & 1u8 != 0
    }

    pub fn uses_default_features(&self) -> (r: bool)
        ensures
            r == stored_uses_default_features(self.flags),
    {
        self.flags & 2u8 != 0
    }
}

/// The flag byte of a dependency gives back both of its flags.
pub proof fn lemma_flags_round_trip(optional: bool, uses_default_features: bool)
    ensures
        stored_optional(dependency_flags(optional, uses_default_features)) == optional,
        stored_uses_default_features(dependency_flags(optional, uses_default_features))
            == uses_default_features,
{
    assert(0u8 & 1u8 == 0u8 && 0u8 & 2u8 == 0u8) by (bit_vector);
    assert(1u8 & 1u8 != 0u8 && 1u8 & 2u8 == 0u8) by (bit_vector);
    assert(2u8 & 1u8 == 0u8 && 2u8 & 2u8 != 0u8) by (bit_vector);
    assert(3u8 & 1u8 != 0u8 && 3u8 & 2u8 != 0u8) by (bit_vector);
}

// ---------------------------------------------------------------------------
// Building a stored graph: every string goes into a pool once.
// ---------------------------------------------------------------------------

/// Each distinct text once, in the order it first occurs.
pub open spec fn first_occurrences(s: Seq<Seq<char>>) -> Seq<Seq<char>>
    decreases s.len(),
{
    if s.len() == 0 {
        Seq::empty()
    } else {
        let earlier = first_occurrences(s.drop_last());
        if earlier.contains(s.last()) {
            earlier
        } else {
            earlier.push(s.last())
        }
    }
}

/// The texts of the packages in the order they are pooled: name, then version.
pub open spec fn package_strings(packages: Seq<PackageEntry>) -> Seq<Seq<char>>
    decreases packages.len(),
{
    if packages.len() == 0 {
        Seq::empty()
    } else {
        package_strings(packages.drop_last()) + seq![
            packages.last().name@,
            packages.last().version@,
        ]
    }
}

/// The texts of the dependencies in the order they are pooled: requirement, then target.
pub open spec fn dependency_strings(dependencies: Seq<DependencyEntry>) -> Seq<Seq<char>>
    decreases dependencies.len(),
{
    if dependencies.len() == 0 {
        Seq::empty()
    } else {
        let d = dependencies.last();
        dependency_strings(dependencies.drop_last()) + seq![d.req@] + match d.target {
            Some(t) => seq![t@],
            None => Seq::empty(),
        }
    }
}

impl StoredGraph {
    /// Whether the texts of `graph` fit the string pool of the file format, whose indices
    /// are `u32` values below `NO_STRING`: what `from_package_graph` needs.
    pub fn pool_fits(graph: &PackageGraph) -> (r: bool)
        ensures
            r == (pooled_strings(*graph).len() < u32::MAX),
    {
        let ghost ps = graph.packages@;
        let ghost ds = graph.dependencies@;
        let mut texts: Vec<&str> = Vec::new();
        let mut i: usize = 0;
        while i < graph.packages.len()
            invariant
                i <= ps.len(),
                ps == graph.packages@,
                texts@.map_values(|t: &str| t@) == package_strings(ps.take(i as int)),
            decreases ps.len() - i,
        {
            let package = &graph.packages[i];
            texts.push(package.name.as_str());
            texts.push(package.version.as_str());
            proof {
                assert(ps.take(i + 1).drop_last() =~= ps.take(i as int));
                assert(texts@.map_values(|t: &str| t@) =~= package_strings(ps.take(i as int)) + seq![
                    package.name@,
                    package.version@,
                ]);
            }
            i = i + 1;
        }
        assert(ps.take(i as int) =~= ps);
        let ghost base = package_strings(ps);
        let mut j: usize = 0;
        while j < graph.dependencies.len()
            invariant
                j <= ds.len(),
                ds == graph.dependencies@,
                base == package_strings(ps),
                texts@.map_values(|t: &str| t@) == base + dependency_strings(ds.take(j as int)),
            decreases ds.len() - j,
        {
            let dependency = &graph.dependencies[j];
            let ghost before = texts@.map_values(|t: &str| t@);
            texts.push(dependency.req.as_str());
            match &dependency.target {
                Some(t) => {
                    texts.push(t.as_str());
                },
                None => {},
            }
            proof {
                assert(ds.take(j + 1).drop_last() =~= ds.take(j as int));
                assert(ds.take(j + 1).last() == dependency);
                assert(texts@.map_values(|t: &str| t@) =~= before + seq![dependency.req@] + match dependency.target {
                    Some(t) => seq![t@],
                    None => Seq::<Seq<char>>::empty(),
                });
            }
            j = j + 1;
        }
        assert(ds.take(j as int) =~= ds);
        let ghost full = base + dependency_strings(ds);
        assert(pooled_strings(*graph) == first_occurrences(full));
        let mut pool = StringPool::new();
        let mut k: usize = 0;
        assert(full.take(0) =~= Seq::<Seq<char>>::empty());
        while k < texts.len()
            invariant
                k <= texts@.len(),
                texts@.map_values(|t: &str| t@) == full,
                pooled_strings(*graph) == first_occurrences(full),
                pool.wf(),
                pool.pooled() == first_occurrences(full.take(k as int)),
            decreases texts@.len() - k,
        {
            if pool.strings.len() >= 0xffff_ffffusize {
                proof {
                    assert(full.take(k as int).is_prefix_of(full));
                    lemma_pool_of_prefix(full.take(k as int), full);
                }
                return false;
            }
            pool.intern(texts[k]);
            proof {
                assert(full.take(k + 1).drop_last() =~= full.take(k as int));
                assert(full.take(k + 1).last() == full[k as int]);
                assert(full[k as int] == texts@[k as int]@);
            }
            k = k + 1;
        }
        assert(full.take(k as int) =~= full);
        pool.strings.len() < 0xffff_ffffusize
    }
}

/// The string pool of the stored form of `graph`.
pub open spec fn pooled_strings(graph: PackageGraph) -> Seq<Seq<char>> {
    first_occurrences(package_strings(graph.packages@) + dependency_strings(graph.dependencies@))
}

/// `p` stores `e`, with its texts as indices into `strings`.
pub open spec fn stores_package(strings: Seq<Seq<char>>, p: StoredPackage, e: PackageEntry) -> bool {
    &&& p.crate_id == e.crate_id
    &&& p.downloads == e.downloads
    &&& p.dependency_start == e.dependency_start
    &&& p.dependency_count == e.dependency_count
    &&& (p.name as int) < strings.len() && strings[p.name as int] == e.name@
    &&& (p.version as int) < strings.len() && strings[p.version as int] == e.version@
}

/// `d` stores `e`; a dependency without a target stores `NO_STRING`.
pub open spec fn stores_dependency(
    strings: Seq<Seq<char>>,
    d: StoredDependency,
    e: DependencyEntry,
) -> bool {
    &&& d.package_index == e.package_index
    &&& d.kind == code_of_kind(e.kind)
    &&& d.flags == dependency_flags(e.optional, e.uses_default_features)
    &&& (d.req as int) < strings.len() && strings[d.req as int] == e.req@
    &&& match e.target {
        Some(t) => (d.target as int) < strings.len() && strings[d.target as int] == t@,
        None => d.target == NO_STRING,
    }
}

proof fn lemma_first_occurrences_extend(s: Seq<Seq<char>>, t: Seq<Seq<char>>)
    ensures
        first_occurrences(s).is_prefix_of(first_occurrences(s + t)),
    decreases t.len(),
{
    if t.len() > 0 {
        lemma_first_occurrences_extend(s, t.drop_last());
        assert((s + t).drop_last() =~= s + t.drop_last());
    } else {
        assert(s + t =~= s);
    }
}

/// A pool made from a prefix of the texts is no larger than the pool of all of them.
proof fn lemma_pool_of_prefix(prefix: Seq<Seq<char>>, full: Seq<Seq<char>>)
    requires
        prefix.is_prefix_of(full),
    ensures
        first_occurrences(prefix).len() <= first_occurrences(full).len(),
{
    assert(prefix + full.skip(prefix.len() as int) =~= full);
    lemma_first_occurrences_extend(prefix, full.skip(prefix.len() as int));
}

proof fn lemma_package_strings_split(packages: Seq<PackageEntry>, i: int)
    requires
        0 <= i <= packages.len(),
    ensures
        package_strings(packages) == package_strings(packages.take(i)) + package_strings(
            packages.skip(i),
        ),
    decreases packages.len(),
{
    if i == packages.len() {
        assert(packages.take(i) =~= packages);
        assert(packages.skip(i) =~= Seq::<PackageEntry>::empty());
        assert(package_strings(packages) + Seq::<Seq<char>>::empty() =~= package_strings(packages));
    } else {
        let h = packages.drop_last();
        lemma_package_strings_split(h, i);
        assert(h.take(i) =~= packages.take(i));
        assert(packages.skip(i).drop_last() =~= h.skip(i));
        assert(packages.skip(i).last() == packages.last());
        assert(package_strings(packages) =~= package_strings(packages.take(i)) + package_strings(
            packages.skip(i),
        ));
    }
}

proof fn lemma_dependency_strings_split(dependencies: Seq<DependencyEntry>, i: int)
    requires
        0 <= i <= dependencies.len(),
    ensures
        dependency_strings(dependencies) == dependency_strings(dependencies.take(i))
            + dependency_strings(dependencies.skip(i)),
    decreases dependencies.len(),
{
    if i == dependencies.len() {
        assert(dependencies.take(i) =~= dependencies);
        assert(dependencies.skip(i) =~= Seq::<DependencyEntry>::empty());
        assert(dependency_strings(dependencies) + Seq::<Seq<char>>::empty() =~= dependency_strings(
            dependencies,
        ));
    } else {
        let h = dependencies.drop_last();
        lemma_dependency_strings_split(h, i);
        assert(h.take(i) =~= dependencies.take(i));
        assert(dependencies.skip(i).drop_last() =~= h.skip(i));
        assert(dependencies.skip(i).last() == dependencies.last());
        assert(dependency_strings(dependencies) =~= dependency_strings(dependencies.take(i))
            + dependency_strings(dependencies.skip(i)));
    }
}

/// Strings in the order they were first interned, each with its index.
struct StringPool {
    strings: Vec<String>,
    index_by_value: StringHashMap<u32>,
}

impl StringPool {
    spec fn pooled(&self) -> Seq<Seq<char>> {
        self.strings@.map_values(|s: String| s@)
    }

    spec fn wf(&self) -> bool {
        &&& self.strings@.len() <= u32::MAX
        &&& forall|i: int|
            0 <= i < self.strings@.len() ==> {
                &&& self.index_by_value@.contains_key(#[trigger] self.strings@[i]@)
                &&& self.index_by_value@[self.strings@[i]@] == i
            }
        &&& forall|k: Seq<char>| #[trigger]
            self.index_by_value@.contains_key(k) ==> {
                &&& (self.index_by_value@[k] as int) < self.strings@.len()
                &&& self.strings@[self.index_by_value@[k] as int]@ == k
            }
    }

    fn new() -> (r: Self)
        ensures
            r.wf(),
            r.pooled() == Seq::<Seq<char>>::empty(),
    {
        let r = StringPool { strings: Vec::new(), index_by_value: StringHashMap::new() };
        assert(r.pooled() =~= Seq::<Seq<char>>::empty());
        r
    }

    /// The index of `value`, adding it at the end when it is new.
    fn intern(&mut self, value: &str) -> (index: u32)
        requires
            old(self).wf(),
            old(self).pooled().len() < u32::MAX,
        ensures
            final(self).wf(),
            final(self).pooled() == if old(self).pooled().contains(value@) {
                old(self).pooled()
            } else {
                old(self).pooled().push(value@)
            },
            (index as int) < final(self).pooled().len(),
            final(self).pooled()[index as int] == value@,
    {
        let ghost before = self.pooled();
        match self.index_by_value.get(value) {
            Some(index) => {
                let i = *index;
                assert(before[i as int] == value@);
                assert(before.contains(value@));
                i
            },
            None => {
                assert(!before.contains(value@)) by {
                    if before.contains(value@) {
                        let k = choose|k: int| 0 <= k < before.len() && before[k] == value@;
                        assert(self.strings@[k]@ == value@);
                    }
                }
                let index = self.strings.len() as u32;
                let owned = value.to_owned();
                self.strings.push(owned.clone());
                self.index_by_value.insert(owned, index);
                assert(self.pooled() =~= before.push(value@));
                index
            },
        }
    }

    fn finish(self) -> (r: Vec<String>)
        ensures
            r@.map_values(|s: String| s@) == self.pooled(),
    {
        self.strings
    }
}

impl StoredGraph {
    /// The stored form of `graph`: each distinct text once in a pool, in the order names,
    /// versions, requirements and targets first occur, and every text replaced by its
    /// pool index.
    pub fn from_package_graph(graph: &PackageGraph) -> (r: Self)
        requires
            pooled_strings(*graph).len() < u32::MAX,
        ensures
            r@.strings == pooled_strings(*graph),
            r@.packages.len() == graph.packages@.len(),
            forall|i: int|
                0 <= i < graph.packages@.len() ==> stores_package(
                    r@.strings,
                    #[trigger] r@.packages[i],
                    graph.packages@[i],
                ),
            r@.dependencies.len() == graph.dependencies@.len(),
            forall|i: int|
                0 <= i < graph.dependencies@.len() ==> stores_dependency(
                    r@.strings,
                    #[trigger] r@.dependencies[i],
                    graph.dependencies@[i],
                ),
    {
        let mut pool = StringPool::new();
        let mut packages: Vec<StoredPackage> = Vec::new();
        let mut dependencies: Vec<StoredDependency> = Vec::new();
        let ghost ps = graph.packages@;
        let ghost ds = graph.dependencies@;
        let ghost full = package_strings(ps) + dependency_strings(ds);

        let mut i: usize = 0;
        while i < graph.packages.len()
            invariant
                i <= ps.len(),
                ps == graph.packages@,
                ds == graph.dependencies@,
                full == package_strings(ps) + dependency_strings(ds),
                first_occurrences(full).len() < u32::MAX,
                pool.wf(),
                pool.pooled() == first_occurrences(package_strings(ps.take(i as int))),
                packages@.len() == i,
                forall|k: int|
                    0 <= k < i ==> stores_package(pool.pooled(), #[trigger] packages@[k], ps[k]),
            decreases ps.len() - i,
        {
            let package = &graph.packages[i];
            let ghost before = pool.pooled();
            proof {
                lemma_package_strings_split(ps, i + 1);
                assert(ps.take(i + 1).drop_last() =~= ps.take(i as int));
                assert(package_strings(ps.take(i + 1)) =~= package_strings(ps.take(i as int)).push(
                    package.name@,
                ).push(package.version@));
            }
            let ghost pre = package_strings(ps.take(i as int));
            proof {
                assert(pre.is_prefix_of(full));
                lemma_pool_of_prefix(pre, full);
            }
            let name = pool.intern(package.name.as_str());
            assert(pre.push(package.name@).drop_last() =~= pre);
            assert(pool.pooled() == first_occurrences(pre.push(package.name@)));
            proof {
                assert(pre.push(package.name@).is_prefix_of(full));
                lemma_pool_of_prefix(pre.push(package.name@), full);
            }
            let version = pool.intern(package.version.as_str());
            assert(pre.push(package.name@).push(package.version@).drop_last() =~= pre.push(
                package.name@,
            ));
            assert(pool.pooled() == first_occurrences(pre.push(package.name@).push(package.version@)));
            packages.push(
                StoredPackage {
                    crate_id: package.crate_id,
                    name,
                    version,
                    downloads: package.downloads,
                    dependency_start: package.dependency_start,
                    dependency_count: package.dependency_count,
                },
            );
            proof {
                let after = pool.pooled();
                assert(before.is_prefix_of(after));
                assert forall|k: int| 0 <= k < i + 1 implies stores_package(
                    after,
                    #[trigger] packages@[k],
                    ps[k],
                ) by {
                    if k < i {
                        assert(stores_package(before, packages@[k], ps[k]));
                    }
                }
                let pre = package_strings(ps.take(i as int));
                assert(pre.push(package.name@).drop_last() =~= pre);
                assert(pre.push(package.name@).push(package.version@).drop_last() =~= pre.push(
                    package.name@,
                ));
            }
            i = i + 1;
        }
        assert(ps.take(i as int) =~= ps);
        let ghost base = package_strings(ps);

        let mut j: usize = 0;
        while j < graph.dependencies.len()
            invariant
                j <= ds.len(),
                ps == graph.packages@,
                ds == graph.dependencies@,
                base == package_strings(ps),
                full == base + dependency_strings(ds),
                first_occurrences(full).len() < u32::MAX,
                pool.wf(),
                pool.pooled() == first_occurrences(base + dependency_strings(ds.take(j as int))),
                packages@.len() == ps.len(),
                forall|k: int|
                    0 <= k < ps.len() ==> stores_package(pool.pooled(), #[trigger] packages@[k], ps[k]),
                dependencies@.len() == j,
                forall|k: int|
                    0 <= k < j ==> stores_dependency(pool.pooled(), #[trigger] dependencies@[k], ds[k]),
            decreases ds.len() - j,
        {
            let dependency = &graph.dependencies[j];
            let ghost before = pool.pooled();
            let ghost pre = base + dependency_strings(ds.take(j as int));
            proof {
                lemma_dependency_strings_split(ds, j + 1);
                assert(ds.take(j + 1).drop_last() =~= ds.take(j as int));
                let step = dependency_strings(ds.take(j + 1));
                assert(step == dependency_strings(ds.take(j as int)) + seq![dependency.req@] + match dependency.target {
                    Some(t) => seq![t@],
                    None => Seq::<Seq<char>>::empty(),
                });
                assert(pre.push(dependency.req@).is_prefix_of(full));
                lemma_pool_of_prefix(pre, full);
                assert(pre.push(dependency.req@).drop_last() =~= pre);
            }
            let req = pool.intern(dependency.req.as_str());
            assert(pool.pooled() == first_occurrences(pre.push(dependency.req@)));
            let ghost mid = pool.pooled();
            let target = match &dependency.target {
                Some(t) => {
                    proof {
                        assert(pre.push(dependency.req@).push(t@).drop_last() =~= pre.push(
                            dependency.req@,
                        ));
                        assert(pre.push(dependency.req@).is_prefix_of(full));
                        lemma_pool_of_prefix(pre.push(dependency.req@), full);
                    }
                    let index = pool.intern(t.as_str());
                    assert(pool.pooled() == first_occurrences(pre.push(dependency.req@).push(t@)));
                    index
                },
                None => NO_STRING,
            };
            dependencies.push(
                StoredDependency {
                    package_index: dependency.package_index,
                    req,
                    target,
                    kind: dependency.kind.code(),
                    flags: dependency.flags(),
                },
            );
            proof {
                let after = pool.pooled();
                assert(before.is_prefix_of(mid));
                assert(mid.is_prefix_of(after));
                assert(before.is_prefix_of(after));
                let next = base + dependency_strings(ds.take(j + 1));
                match &dependency.target {
                    Some(t) => {
                        assert(next =~= pre.push(dependency.req@).push(t@));
                    },
                    None => {
                        assert(next =~= pre.push(dependency.req@));
                    },
                }
                assert forall|k: int| 0 <= k < ps.len() implies stores_package(
                    after,
                    #[trigger] packages@[k],
                    ps[k],
                ) by {
                    assert(stores_package(before, packages@[k], ps[k]));
                }
                assert forall|k: int| 0 <= k < j + 1 implies stores_dependency(
                    after,
                    #[trigger] dependencies@[k],
                    ds[k],
                ) by {
                    if k < j {
                        assert(stores_dependency(before, dependencies@[k], ds[k]));
                    }
                }
            }
            j = j + 1;
        }
        assert(ds.take(j as int) =~= ds);
        let strings = pool.finish();
        StoredGraph { strings, packages, dependencies }
    }
}

/// The pool holds each text once, and exactly the texts it was built from.
pub proof fn lemma_pool_holds_each_text_once(s: Seq<Seq<char>>)
    ensures
        first_occurrences(s).no_duplicates(),
        forall|x: Seq<char>| first_occurrences(s).contains(x) <==> s.contains(x),
    decreases s.len(),
{
    if s.len() > 0 {
        let h = s.drop_last();
        lemma_pool_holds_each_text_once(h);
        let e = first_occurrences(h);
        let l = s.last();
        assert forall|x: Seq<char>| first_occurrences(s).contains(x) <==> s.contains(x) by {
            if e.contains(l) {
                assert(first_occurrences(s) == e);
            } else {
                assert(first_occurrences(s) == e.push(l));
                if e.push(l).contains(x) && x != l {
                    let i = choose|i: int| 0 <= i < e.push(l).len() && e.push(l)[i] == x;
                    assert(e[i] == x);
                }
                if x == l {
                    assert(e.push(l)[e.len() as int] == x);
                }
                if e.contains(x) {
                    let i = choose|i: int| 0 <= i < e.len() && e[i] == x;
                    assert(e.push(l)[i] == x);
                }
            }
            if s.contains(x) && x != l {
                let i = choose|i: int| 0 <= i < s.len() && s[i] == x;
                assert(h[i] == x);
            }
            if h.contains(x) {
                let i = choose|i: int| 0 <= i < h.len() && h[i] == x;
                assert(s[i] == x);
            }
            if x == l {
                assert(s[s.len() - 1] == x);
            }
        }
    }
}

/// Looking a name up depends only on the name without surrounding whitespace and with
/// ASCII capitals made small.
pub proof fn lemma_lookup_ignores_case_and_padding(g: GraphModel, a: Seq<char>, b: Seq<char>, i: int)
    requires
        ascii_lowercase_chars(trimmed(a)) == ascii_lowercase_chars(trimmed(b)),
    ensures
        is_best_named(g, trimmed(a), i) == is_best_named(g, trimmed(b), i),
        forall|p: StoredPackage| package_named(g, p, trimmed(a)) == package_named(g, p, trimmed(b)),
{
}

} // verus!
