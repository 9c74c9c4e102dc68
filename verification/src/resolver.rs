//! Resolution of a query offset against a sorted table of entries.
//!
//! A query resolves to the last entry whose generated offset does not
//! exceed it. Where that entry has no source position, the closest entry
//! before it that has one is reported with it.

use crate::entry::{entry_views, MappingEntry, MappingEntryView};
use vstd::prelude::*;

verus! {

/// Whether the entries are in ascending order of generated offset.
pub open spec fn sorted_by_offset(table: Seq<MappingEntryView>) -> bool {
    forall|i: int, j: int|
        0 <= i <= j < table.len() ==> table[i].generated_offset <= table[j].generated_offset
}

/// The position of the last entry whose generated offset is at most
/// `offset`, if there is one.
pub open spec fn floor_index(table: Seq<MappingEntryView>, offset: int) -> Option<int>
    decreases table.len(),
{
    if table.len() == 0 {
        None
    } else if table.last().generated_offset <= offset {
        Some(table.len() - 1)
    } else {
        floor_index(table.drop_last(), offset)
    }
}

/// The position of the last entry that has a source position, if there is
/// one.
pub open spec fn last_attributed(table: Seq<MappingEntryView>) -> Option<int>
    decreases table.len(),
{
    if table.len() == 0 {
        None
    } else if table.last().position.is_some() {
        Some(table.len() - 1)
    } else {
        last_attributed(table.drop_last())
    }
}

/// What a query resolves to. Entries are named by their position in the
/// table.
#[derive(Debug, Clone, Copy, PartialEq, Eq)]
pub enum Resolution {
    /// Every entry of the table lies beyond the query offset.
    NoMapping,
    /// The matched entry has a source position.
    Resolved { entry: usize },
    /// The matched entry has no source position: the offset lies in code
    /// that no source line accounts for. `closest_source` is the nearest
    /// entry before the matched one that has a source position.
    Generated { entry: usize, closest_source: Option<usize> },
}

/// The mathematical content of a [`Resolution`].
pub enum ResolutionView {
    NoMapping,
    Resolved { entry: int },
    Generated { entry: int, closest_source: Option<int> },
}

impl View for Resolution {
    type V = ResolutionView;

    open spec fn view(&self) -> ResolutionView {
        match *self {
            Resolution::NoMapping => ResolutionView::NoMapping,
            Resolution::Resolved { entry } => ResolutionView::Resolved { entry: entry as int },
            Resolution::Generated { entry, closest_source } => ResolutionView::Generated {
                entry: entry as int,
                closest_source: match closest_source {
                    Some(j) => Some(j as int),
                    None => None,
                },
            },
        }
    }
}

/// What `offset` resolves to in `table`.
pub open spec fn resolve_spec(table: Seq<MappingEntryView>, offset: int) -> ResolutionView {
    match floor_index(table, offset) {
        None => ResolutionView::NoMapping,
        Some(i) => if table[i].position.is_some() {
            ResolutionView::Resolved { entry: i }
        } else {
            ResolutionView::Generated { entry: i, closest_source: last_attributed(table.take(i)) }
        },
    }
}

/// The floor of a query is a position of the table, its entry does not
/// exceed the query, and every later entry does; without a floor, every
/// entry exceeds the query.
pub proof fn lemma_floor_index(table: Seq<MappingEntryView>, offset: int)
    ensures
        match floor_index(table, offset) {
            Some(i) => {
                &&& 0 <= i < table.len()
                &&& table[i].generated_offset <= offset
                &&& forall|j: int| i < j < table.len() ==> table[j].generated_offset > offset
            },
            None => forall|j: int| 0 <= j < table.len() ==> table[j].generated_offset > offset,
        },
    decreases table.len(),
{
    if table.len() > 0 && table.last().generated_offset > offset {
        let shorter = table.drop_last();
        lemma_floor_index(shorter, offset);
        assert forall|j: int| 0 <= j < shorter.len() implies shorter[j] == table[j] by {}
        match floor_index(shorter, offset) {
            Some(i) => {
                assert forall|j: int| i < j < table.len() implies table[j].generated_offset
                    > offset by {
                    if j < shorter.len() {
                        assert(shorter[j].generated_offset > offset);
                    }
                }
            },
            None => {
                assert forall|j: int| 0 <= j < table.len() implies table[j].generated_offset
                    > offset by {
                    if j < shorter.len() {
                        assert(shorter[j].generated_offset > offset);
                    }
                }
            },
        }
    }
}

/// A position whose entry does not exceed the query, while every later
/// entry does, is the floor.
pub proof fn lemma_floor_index_is(table: Seq<MappingEntryView>, offset: int, i: int)
    requires
        0 <= i < table.len(),
        table[i].generated_offset <= offset,
        forall|j: int| i < j < table.len() ==> table[j].generated_offset > offset,
    ensures
        floor_index(table, offset) == Some(i),
    decreases table.len(),
{
    if i < table.len() - 1 {
        lemma_floor_index_is(table.drop_last(), offset, i);
    }
}

/// The last attributed entry is a position of the table, its entry has a
/// source position, and no later entry has one; with no such entry, no
/// entry has a source position.
pub proof fn lemma_last_attributed(table: Seq<MappingEntryView>)
    ensures
        match last_attributed(table) {
            Some(i) => {
                &&& 0 <= i < table.len()
                &&& table[i].position.is_some()
                &&& forall|j: int| i < j < table.len() ==> table[j].position.is_none()
            },
            None => forall|j: int| 0 <= j < table.len() ==> table[j].position.is_none(),
        },
    decreases table.len(),
{
    if table.len() > 0 && table.last().position.is_none() {
        let shorter = table.drop_last();
        lemma_last_attributed(shorter);
        match last_attributed(shorter) {
            Some(i) => {
                assert forall|j: int| i < j < table.len() implies table[j].position.is_none() by {
                    if j < shorter.len() {
                        assert(shorter[j].position.is_none());
                    }
                }
            },
            None => {
                assert forall|j: int| 0 <= j < table.len() implies table[j].position.is_none() by {
                    if j < shorter.len() {
                        assert(shorter[j].position.is_none());
                    }
                }
            },
        }
    }
}

/// In a sorted table, the entry that a query resolves to has the greatest
/// generated offset among those that do not exceed the query; the query
/// resolves to no entry exactly when every generated offset exceeds it.
pub proof fn lemma_resolves_to_greatest(table: Seq<MappingEntryView>, offset: int)
    requires
        sorted_by_offset(table),
    ensures
        match resolve_spec(table, offset) {
            ResolutionView::NoMapping => forall|j: int|
                0 <= j < table.len() ==> table[j].generated_offset > offset,
            ResolutionView::Resolved { entry } | ResolutionView::Generated { entry, .. } => {
                &&& 0 <= entry < table.len()
                &&& table[entry].generated_offset <= offset
                &&& forall|j: int|
                    0 <= j < table.len() && table[j].generated_offset <= offset
                        ==> table[j].generated_offset <= table[entry].generated_offset
            },
        },
{
    lemma_floor_index(table, offset);
}

/// In a sorted table that holds an entry at the query offset itself, the
/// query resolves to an entry at that offset.
pub proof fn lemma_exact_match(table: Seq<MappingEntryView>, offset: int, at: int)
    requires
        sorted_by_offset(table),
        0 <= at < table.len(),
        table[at].generated_offset == offset,
    ensures
        match resolve_spec(table, offset) {
            ResolutionView::NoMapping => false,
            ResolutionView::Resolved { entry } | ResolutionView::Generated { entry, .. } => {
                table[entry].generated_offset == offset
            },
        },
{
    lemma_resolves_to_greatest(table, offset);
}

/// A query resolves directly exactly when its matched entry has a source
/// position. Otherwise the closest source reported with it is the nearest
/// entry before the matched one that has a source position, and none is
/// reported exactly when no entry before the matched one has any.
pub proof fn lemma_closest_source(table: Seq<MappingEntryView>, offset: int)
    ensures
        match resolve_spec(table, offset) {
            ResolutionView::NoMapping => true,
            ResolutionView::Resolved { entry } => table[entry].position.is_some(),
            ResolutionView::Generated { entry, closest_source } => {
                &&& table[entry].position.is_none()
                &&& match closest_source {
                    Some(j) => {
                        &&& 0 <= j < entry
                        &&& table[j].position.is_some()
                        &&& forall|k: int| j < k < entry ==> table[k].position.is_none()
                    },
                    None => forall|k: int| 0 <= k < entry ==> table[k].position.is_none(),
                }
            },
        },
{
    lemma_floor_index(table, offset);
    match floor_index(table, offset) {
        Some(i) => {
            let before = table.take(i);
            lemma_last_attributed(before);
            match last_attributed(before) {
                Some(j) => {
                    assert(before[j] == table[j]);
                    assert forall|k: int| j < k < i implies table[k].position.is_none() by {
                        assert(before[k].position.is_none());
                    }
                },
                None => {
                    assert forall|k: int| 0 <= k < i implies table[k].position.is_none() by {
                        assert(before[k].position.is_none());
                    }
                },
            }
        },
        None => {},
    }
}

/// The number of entries, among the first `len`, whose generated offset is
/// at most `offset`. They are the first so many, as the entries are sorted.
pub fn partition_point(entries: &Vec<MappingEntry>, len: usize, offset: u32) -> (p: usize)
    requires
        len <= entries.len(),
        sorted_by_offset(entry_views(entries@).take(len as int)),
    ensures
        p <= len,
        forall|j: int| 0 <= j < p ==> entries[j].generated_offset <= offset,
        forall|j: int| p <= j < len ==> entries[j].generated_offset > offset,
{
    let ghost table = entry_views(entries@).take(len as int);
    let mut low: usize = 0;
    let mut high: usize = len;
    while low < high
        invariant
            low <= high <= len <= entries.len(),
            table == entry_views(entries@).take(len as int),
            sorted_by_offset(table),
            forall|j: int| 0 <= j < low ==> entries[j].generated_offset <= offset,
            forall|j: int| high <= j < len ==> entries[j].generated_offset > offset,
        decreases high - low,
    {
        let middle = low + (high - low) / 2;
        if entries[middle].generated_offset <= offset {
            assert forall|j: int| 0 <= j < middle + 1 implies entries[j].generated_offset
                <= offset by {
                assert(table[j].generated_offset <= table[middle as int].generated_offset);
            }
            low = middle + 1;
        } else {
            assert forall|j: int| middle <= j < len implies entries[j].generated_offset
                > offset by {
                assert(table[middle as int].generated_offset <= table[j].generated_offset);
            }
            high = middle;
        }
    }
    low
}

/// Finds the last entry whose generated offset is at most `target_offset`.
pub fn floor_search(entries: &Vec<MappingEntry>, target_offset: u32) -> (found: Option<usize>)
    requires
        sorted_by_offset(entry_views(entries@)),
    ensures
        match found {
            Some(i) => floor_index(entry_views(entries@), target_offset as int) == Some(i as int),
            None => floor_index(entry_views(entries@), target_offset as int).is_none(),
        },
{
    let ghost table = entry_views(entries@);
    assert(table.take(table.len() as int) =~= table);
    let p = partition_point(entries, entries.len(), target_offset);
    proof {
        if p > 0 {
            lemma_floor_index_is(table, target_offset as int, p - 1);
        } else {
            lemma_floor_index(table, target_offset as int);
        }
    }
    if p == 0 {
        None
    } else {
        Some(p - 1)
    }
}

/// Finds the closest entry before position `end` that has a source
/// position, walking backwards from `end`.
pub fn closest_source_before(entries: &Vec<MappingEntry>, end: usize) -> (found: Option<usize>)
    requires
        end <= entries.len(),
    ensures
        match found {
            Some(j) => last_attributed(entry_views(entries@).take(end as int)) == Some(j as int),
            None => last_attributed(entry_views(entries@).take(end as int)).is_none(),
        },
{
    let ghost table = entry_views(entries@);
    let mut k: usize = end;
    while k > 0
        invariant
            k <= end <= entries.len(),
            table == entry_views(entries@),
            last_attributed(table.take(end as int)) == last_attributed(table.take(k as int)),
        decreases k,
    {
        assert(table.take(k as int).drop_last() =~= table.take(k - 1));
        if entries[k - 1].position.is_some() {
            return Some(k - 1);
        }
        k = k - 1;
    }
    None
}

/// Resolves one query offset against a sorted table.
pub fn get_source(entries: &Vec<MappingEntry>, target_offset: u32) -> (resolution: Resolution)
    requires
        sorted_by_offset(entry_views(entries@)),
    ensures
        resolution@ == resolve_spec(entry_views(entries@), target_offset as int),
{
    proof {
        lemma_floor_index(entry_views(entries@), target_offset as int);
    }
    match floor_search(entries, target_offset) {
        None => Resolution::NoMapping,
        Some(i) => {
            if entries[i].position.is_some() {
                Resolution::Resolved { entry: i }
            } else {
                Resolution::Generated { entry: i, closest_source: closest_source_before(entries, i) }
            }
        },
    }
}

/// Resolves each query offset against the same sorted table. The answers
/// stand in the order of the queries, and each is what its query resolves
/// to alone.
pub fn resolve_all(entries: &Vec<MappingEntry>, offsets: &Vec<u32>) -> (resolutions: Vec<
    Resolution,
>)
    requires
        sorted_by_offset(entry_views(entries@)),
    ensures
        resolutions.len() == offsets.len(),
        forall|i: int|
            0 <= i < offsets.len() ==> (#[trigger] resolutions[i])@ == resolve_spec(
                entry_views(entries@),
                offsets[i] as int,
            ),
{
    let mut resolutions: Vec<Resolution> = Vec::new();
    let mut i: usize = 0;
    while i < offsets.len()
        invariant
            i <= offsets.len(),
            resolutions.len() == i,
            sorted_by_offset(entry_views(entries@)),
            forall|k: int|
                0 <= k < i ==> (#[trigger] resolutions[k])@ == resolve_spec(
                    entry_views(entries@),
                    offsets[k] as int,
                ),
        decreases offsets.len() - i,
    {
        let resolution = get_source(entries, offsets[i]);
        resolutions.push(resolution);
        i = i + 1;
    }
    resolutions
}

} // verus!
