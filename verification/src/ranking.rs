//! Orders handed to the standard library's sort.

use vstd::prelude::*;

use crate::text::{Order, compare_text};
use crate::versions::{
    SelectedVersion, VersionCandidate, candidate_order, permutes, version_key_less,
};
use crate::text::text_order;
use crate::explore::{NeighbourCandidate, candidate_before, dependent_before, entry_before};
use crate::format::StoredPackage;

verus! {

/// The order of the selected-version list, for `sort_by`.
fn selected_version_ordering(a: &SelectedVersion, b: &SelectedVersion) -> (r: std::cmp::Ordering)
    ensures
        (r == std::cmp::Ordering::Less) == version_key_less(*a, *b),
        (r == std::cmp::Ordering::Greater) == version_key_less(*b, *a),
{
    proof {
        crate::text::lemma_text_order_antisymmetric(a.name@, b.name@);
        crate::text::lemma_text_order_antisymmetric(b.name@, a.name@);
    }
    match compare_text(a.name.as_str(), b.name.as_str()) {
        Order::Less => std::cmp::Ordering::Less,
        Order::Greater => std::cmp::Ordering::Greater,
        Order::Equal => if a.crate_id < b.crate_id {
            std::cmp::Ordering::Less
        } else if a.crate_id > b.crate_id {
            std::cmp::Ordering::Greater
        } else {
            std::cmp::Ordering::Equal
        },
    }
}

/// `slice::sort_by` with the order above. Claimed: the result rearranges the elements,
/// and no element comes after one that it orders before.
#[verifier::external_body]
pub(crate) fn sort_selected_versions(versions: &mut Vec<SelectedVersion>)
    ensures
        final(versions)@.len() == old(versions)@.len(),
        exists|p: Seq<int>|
            permutes(p, old(versions)@.len()) && forall|i: int|
                0 <= i < old(versions)@.len() ==> #[trigger] final(versions)@[i] == old(
                    versions,
                )@[p[i]],
        forall|i: int, j: int|
            0 <= i < j < final(versions)@.len() ==> !version_key_less(
                #[trigger] final(versions)@[j],
                #[trigger] final(versions)@[i],
            ),
{
    versions.sort_by(|a, b| selected_version_ordering(a, b));
}

/// The names of the selected versions, by node.
pub open spec fn version_names(versions: Seq<SelectedVersion>) -> Seq<Seq<char>> {
    versions.map_values(|v: SelectedVersion| v.name@)
}

/// Edge `x` comes before edge `y` among the edges of one package: by the name of the
/// target, then the later-added edge first. (`x` and `y` are (target, position) pairs.)
pub open spec fn outgoing_less(names: Seq<Seq<char>>, x: (u32, u32), y: (u32, u32)) -> bool {
    ||| text_order(names[x.0 as int], names[y.0 as int]) == Order::Less
    ||| text_order(names[x.0 as int], names[y.0 as int]) == Order::Equal && x.1 > y.1
}

/// `node` is the position of one of `versions`.
pub open spec fn names_node(versions: Seq<SelectedVersion>, node: u32) -> bool {
    (node as int) < versions.len()
}

/// The name of the version at node `node`.
fn name_at(versions: &Vec<SelectedVersion>, node: u32) -> (r: &str)
    requires
        (node as int) < versions@.len(),
    ensures
        r@ == versions@[node as int].name@,
{
    versions[node as usize].name.as_str()
}

/// The order of a package's edges, for `sort_by`.
fn outgoing_ordering(versions: &Vec<SelectedVersion>, a: &(u32, u32), b: &(u32, u32)) -> (r: std::cmp::Ordering)
    requires
        names_node(versions@, a.0),
        names_node(versions@, b.0),
    ensures
        (r == std::cmp::Ordering::Less) == outgoing_less(version_names(versions@), *a, *b),
        (r == std::cmp::Ordering::Greater) == outgoing_less(version_names(versions@), *b, *a),
{
    let left = name_at(versions, a.0);
    let right = name_at(versions, b.0);
    proof {
        crate::text::lemma_text_order_antisymmetric(left@, right@);
        crate::text::lemma_text_order_antisymmetric(right@, left@);
    }
    match compare_text(left, right) {
        Order::Less => std::cmp::Ordering::Less,
        Order::Greater => std::cmp::Ordering::Greater,
        Order::Equal => if a.1 > b.1 {
            std::cmp::Ordering::Less
        } else if a.1 < b.1 {
            std::cmp::Ordering::Greater
        } else {
            std::cmp::Ordering::Equal
        },
    }
}

/// `slice::sort_by` with the order above. Claimed: the result rearranges the pairs, and no
/// pair comes after one that it orders before. Every target must name a node.
#[verifier::external_body]
pub(crate) fn sort_outgoing(out: &mut Vec<(u32, u32)>, versions: &Vec<SelectedVersion>)
    requires
        forall|i: int| 0 <= i < old(out)@.len() ==> names_node(versions@, (#[trigger] old(out)@[i]).0),
    ensures
        final(out)@.len() == old(out)@.len(),
        exists|p: Seq<int>|
            permutes(p, old(out)@.len()) && forall|i: int|
                0 <= i < old(out)@.len() ==> #[trigger] final(out)@[i] == old(out)@[p[i]],
        forall|i: int, j: int|
            0 <= i < j < final(out)@.len() ==> !outgoing_less(
                version_names(versions@),
                #[trigger] final(out)@[j],
                #[trigger] final(out)@[i],
            ),
{
    out.sort_by(|a, b| outgoing_ordering(versions, a, b));
}

/// The order of a dependent list, for `sort_by`.
fn dependent_ordering(a: &(usize, StoredPackage), b: &(usize, StoredPackage)) -> (r: std::cmp::Ordering)
    ensures
        (r == std::cmp::Ordering::Less) == dependent_before(*a, *b),
        (r == std::cmp::Ordering::Greater) == dependent_before(*b, *a),
{
    if a.1.downloads > b.1.downloads {
        std::cmp::Ordering::Less
    } else if a.1.downloads < b.1.downloads {
        std::cmp::Ordering::Greater
    } else if a.1.crate_id < b.1.crate_id {
        std::cmp::Ordering::Less
    } else if a.1.crate_id > b.1.crate_id {
        std::cmp::Ordering::Greater
    } else if a.0 < b.0 {
        std::cmp::Ordering::Less
    } else if a.0 > b.0 {
        std::cmp::Ordering::Greater
    } else {
        std::cmp::Ordering::Equal
    }
}

/// `slice::sort_by` with the order above. Claimed: the result rearranges the entries, and
/// no entry comes after one that it orders before.
#[verifier::external_body]
pub(crate) fn sort_dependents(list: &mut Vec<(usize, StoredPackage)>)
    ensures
        final(list)@.len() == old(list)@.len(),
        exists|p: Seq<int>|
            permutes(p, old(list)@.len()) && forall|i: int|
                0 <= i < old(list)@.len() ==> #[trigger] final(list)@[i] == old(list)@[p[i]],
        forall|i: int, j: int|
            0 <= i < j < final(list)@.len() ==> !dependent_before(
                #[trigger] final(list)@[j],
                #[trigger] final(list)@[i],
            ),
{
    list.sort_by(|a, b| dependent_ordering(a, b));
}

/// The order of search entries, for `sort_by`: by rank, then downloads, most first, then
/// by name.
fn search_entry_ordering(a: &(u8, u64, String, usize), b: &(u8, u64, String, usize)) -> (r:
    std::cmp::Ordering)
    ensures
        (r == std::cmp::Ordering::Less) == entry_before(*a, *b),
        (r == std::cmp::Ordering::Greater) == entry_before(*b, *a),
{
    if a.0 < b.0 {
        std::cmp::Ordering::Less
    } else if a.0 > b.0 {
        std::cmp::Ordering::Greater
    } else if a.1 > b.1 {
        std::cmp::Ordering::Less
    } else if a.1 < b.1 {
        std::cmp::Ordering::Greater
    } else {
        proof {
            crate::text::lemma_text_order_antisymmetric(a.2@, b.2@);
            crate::text::lemma_text_order_antisymmetric(b.2@, a.2@);
        }
        match compare_text(a.2.as_str(), b.2.as_str()) {
            Order::Less => std::cmp::Ordering::Less,
            Order::Greater => std::cmp::Ordering::Greater,
            Order::Equal => std::cmp::Ordering::Equal,
        }
    }
}

/// `slice::sort_by` with the order above. Claimed: the result rearranges the entries, and
/// no entry comes after one that it orders before.
#[verifier::external_body]
pub(crate) fn sort_search_entries(entries: &mut Vec<(u8, u64, String, usize)>)
    ensures
        final(entries)@.len() == old(entries)@.len(),
        exists|p: Seq<int>|
            permutes(p, old(entries)@.len()) && forall|i: int|
                0 <= i < old(entries)@.len() ==> #[trigger] final(entries)@[i] == old(entries)@[p[i]],
        forall|i: int, j: int|
            0 <= i < j < final(entries)@.len() ==> !entry_before(
                #[trigger] final(entries)@[j],
                #[trigger] final(entries)@[i],
            ),
{
    entries.sort_by(|a, b| search_entry_ordering(a, b));
}

/// The order of ring candidates, for `sort_by`.
fn candidate_ordering(a: &NeighbourCandidate, b: &NeighbourCandidate) -> (r: std::cmp::Ordering)
    ensures
        (r == std::cmp::Ordering::Less) == candidate_before(*a, *b),
        (r == std::cmp::Ordering::Greater) == candidate_before(*b, *a),
{
    let left = a.parents.len();
    let right = b.parents.len();
    if left > right {
        std::cmp::Ordering::Less
    } else if left < right {
        std::cmp::Ordering::Greater
    } else if a.downloads > b.downloads {
        std::cmp::Ordering::Less
    } else if a.downloads < b.downloads {
        std::cmp::Ordering::Greater
    } else if a.package_index < b.package_index {
        std::cmp::Ordering::Less
    } else if a.package_index > b.package_index {
        std::cmp::Ordering::Greater
    } else {
        std::cmp::Ordering::Equal
    }
}

/// `slice::sort_by` with the order above. Claimed: the result rearranges the candidates,
/// and no candidate comes after one that it orders before.
#[verifier::external_body]
pub(crate) fn sort_candidates(candidates: &mut Vec<NeighbourCandidate>)
    ensures
        final(candidates)@.len() == old(candidates)@.len(),
        exists|p: Seq<int>|
            permutes(p, old(candidates)@.len()) && forall|i: int|
                0 <= i < old(candidates)@.len() ==> #[trigger] final(candidates)@[i] == old(candidates)@[p[i]],
        forall|i: int, j: int|
            0 <= i < j < final(candidates)@.len() ==> !candidate_before(
                #[trigger] final(candidates)@[j],
                #[trigger] final(candidates)@[i],
            ),
{
    candidates.sort_by(|a, b| candidate_ordering(a, b));
}

/// Candidates are the same when they are the same version.
impl PartialEq for VersionCandidate {
    fn eq(&self, other: &Self) -> (r: bool) {
        self.version_id == other.version_id
    }
}

impl vstd::std_specs::cmp::PartialEqSpecImpl for VersionCandidate {
    open spec fn obeys_eq_spec() -> bool {
        true
    }

    open spec fn eq_spec(&self, other: &Self) -> bool {
        self.version_id == other.version_id
    }
}

/// `std::cmp::Ordering` for an `Order`.
pub open spec fn std_ordering(o: Order) -> std::cmp::Ordering {
    match o {
        Order::Less => std::cmp::Ordering::Less,
        Order::Equal => std::cmp::Ordering::Equal,
        Order::Greater => std::cmp::Ordering::Greater,
    }
}

/// Candidates compare by `candidate_order`.
impl PartialOrd for VersionCandidate {
    fn partial_cmp(&self, other: &Self) -> (r: Option<std::cmp::Ordering>) {
        let o = match self.compare(other) {
            Order::Less => std::cmp::Ordering::Less,
            Order::Equal => std::cmp::Ordering::Equal,
            Order::Greater => std::cmp::Ordering::Greater,
        };
        Some(o)
    }
}

impl vstd::std_specs::cmp::PartialOrdSpecImpl for VersionCandidate {
    open spec fn obeys_partial_cmp_spec() -> bool {
        true
    }

    open spec fn partial_cmp_spec(&self, other: &Self) -> Option<std::cmp::Ordering> {
        Some(std_ordering(candidate_order(self@, other@)))
    }
}

} // verus!
