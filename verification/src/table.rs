//! The decoded mapping table: the entries of a map, sorted for lookup.

use crate::decoder::{decode_mappings, decode_spec};
use crate::entry::{entry_views, source_names, MappingEntry, MappingEntryView};
use crate::resolver::{
    get_source, partition_point, resolve_all, resolve_spec, sorted_by_offset, Resolution,
};
use vstd::prelude::*;

verus! {

/// The entries of `s` whose generated offset is `offset`, in the order in
/// which they stand in `s`.
pub open spec fn with_offset(s: Seq<MappingEntryView>, offset: int) -> Seq<MappingEntryView>
    decreases s.len(),
{
    if s.len() == 0 {
        Seq::empty()
    } else {
        let before = with_offset(s.drop_last(), offset);
        if s.last().generated_offset == offset {
            before.push(s.last())
        } else {
            before
        }
    }
}

/// Whether `sorted` holds the entries of `given` in ascending order of
/// generated offset, those of equal offset in the order in which `given`
/// has them.
pub open spec fn is_stable_sort_of(
    sorted: Seq<MappingEntryView>,
    given: Seq<MappingEntryView>,
) -> bool {
    &&& sorted.len() == given.len()
    &&& sorted_by_offset(sorted)
    &&& forall|offset: int| #[trigger] with_offset(sorted, offset) == with_offset(given, offset)
}

/// Sorts entries by generated offset. Entries of equal offset keep their
/// order.
pub fn sort_by_offset(entries: &mut Vec<MappingEntry>)
    ensures
        is_stable_sort_of(entry_views(final(entries)@), entry_views(old(entries)@)),
{
    let ghost given = entry_views(entries@);
    let n = entries.len();
    let mut i: usize = 0;
    proof {
        assert(given.take(0) =~= Seq::<MappingEntryView>::empty());
    }
    while i < n
        invariant
            i <= n,
            entries.len() == n,
            given.len() == n,
            sorted_by_offset(entry_views(entries@).take(i as int)),
            entry_views(entries@).skip(i as int) == given.skip(i as int),
            forall|offset: int| #[trigger]
                with_offset(entry_views(entries@).take(i as int), offset) == with_offset(
                    given.take(i as int),
                    offset,
                ),
        decreases n - i,
    {
        let ghost old_entries = entries@;
        let ghost before = entry_views(entries@);
        let ghost head = before.take(i as int);
        let ghost moved = before[i as int];
        let key = entries[i].generated_offset;
        proof {
            assert(before.skip(i as int)[0] == given.skip(i as int)[0]);
            assert(given.take(i + 1).drop_last() =~= given.take(i as int));
        }
        let p = if i > 0 && entries[i - 1].generated_offset <= key {
            i
        } else {
            partition_point(entries, i, key)
        };
        proof {
            if i > 0 && head[i - 1].generated_offset <= key {
                assert forall|j: int| 0 <= j < i implies old_entries[j].generated_offset
                    <= key by {
                    assert(head[j].generated_offset <= head[i - 1].generated_offset);
                }
            }
        }
        if p < i {
            let entry = entries.remove(i);
            entries.insert(p, entry);
        }
        proof {
            let after = entry_views(entries@);
            assert(after.take(i + 1) =~= head.insert(p as int, moved));
            assert(after.skip(i + 1) =~= before.skip(i + 1));
            assert(before.skip(i + 1) =~= before.skip(i as int).skip(1));
            assert(given.skip(i + 1) =~= given.skip(i as int).skip(1));
            assert(moved == given[i as int]);
            assert forall|j: int| p <= j < head.len() implies head[j].generated_offset
                > moved.generated_offset by {
                assert(head[j] == old_entries[j]@);
            }
            assert forall|offset: int| #[trigger]
                with_offset(after.take(i + 1), offset) == with_offset(
                    given.take(i + 1),
                    offset,
                ) by {
                lemma_with_offset_insert(head, p as int, moved, offset);
                assert(head.push(moved).drop_last() =~= head);
                assert(with_offset(head, offset) == with_offset(given.take(i as int), offset));
                assert(given.take(i + 1).last() == moved);
            }
        }
        i = i + 1;
    }
    proof {
        let after = entry_views(entries@);
        assert(after.take(n as int) =~= after);
        assert(given.take(n as int) =~= given);
    }
}

/// Why no table could be built.
#[derive(Debug, Clone, Copy, PartialEq, Eq)]
pub enum DecodeError {
    /// The mappings string holds no segment with a complete quantity.
    NoEntries,
}

/// The entries of a source map in ascending order of generated offset,
/// entries of equal offset in the order of the map.
pub struct MappingTable {
    entries: Vec<MappingEntry>,
}

impl View for MappingTable {
    type V = Seq<MappingEntryView>;

    closed spec fn view(&self) -> Seq<MappingEntryView> {
        entry_views(self.entries@)
    }
}

impl MappingTable {
    #[verifier::type_invariant]
    spec fn in_order(self) -> bool {
        sorted_by_offset(entry_views(self.entries@))
    }

    /// Builds a table of the given entries.
    pub fn from_entries(entries: Vec<MappingEntry>) -> (table: MappingTable)
        ensures
            is_stable_sort_of(table@, entry_views(entries@)),
    {
        let mut sorted = entries;
        sort_by_offset(&mut sorted);
        MappingTable { entries: sorted }
    }

    /// Decodes a mappings string and builds the table of its entries.
    /// `sources` is the map's list of source names. A string without any
    /// entry gives no table.
    pub fn decode(mappings: &str, sources: &Vec<String>) -> (result: Result<
        MappingTable,
        DecodeError,
    >)
        ensures
            match result {
                Ok(table) => {
                    &&& decode_spec(mappings@, source_names(sources@)).len() > 0
                    &&& is_stable_sort_of(table@, decode_spec(mappings@, source_names(sources@)))
                },
                Err(error) => {
                    &&& error == DecodeError::NoEntries
                    &&& decode_spec(mappings@, source_names(sources@)).len() == 0
                },
            },
    {
        let entries = decode_mappings(mappings, sources);
        assert(entry_views(entries@).len() == entries@.len());
        if entries.len() == 0 {
            Err(DecodeError::NoEntries)
        } else {
            Ok(MappingTable::from_entries(entries))
        }
    }

    /// The entries, in the table's order.
    pub fn entries(&self) -> (entries: &Vec<MappingEntry>)
        ensures
            entry_views(entries@) == self@,
            sorted_by_offset(self@),
    {
        proof {
            use_type_invariant(self);
        }
        &self.entries
    }

    /// The number of entries.
    pub fn len(&self) -> (n: usize)
        ensures
            n == self@.len(),
    {
        self.entries.len()
    }

    /// Resolves one query offset.
    pub fn get_source(&self, target_offset: u32) -> (resolution: Resolution)
        ensures
            resolution@ == resolve_spec(self@, target_offset as int),
    {
        proof {
            use_type_invariant(self);
        }
        get_source(&self.entries, target_offset)
    }

    /// Resolves each query offset. The answers stand in the order of the
    /// queries, and each is what its query resolves to alone.
    pub fn resolve_all(&self, offsets: &Vec<u32>) -> (resolutions: Vec<Resolution>)
        ensures
            resolutions.len() == offsets.len(),
            forall|i: int|
                0 <= i < offsets.len() ==> (#[trigger] resolutions[i])@ == resolve_spec(
                    self@,
                    offsets[i] as int,
                ),
    {
        proof {
            use_type_invariant(self);
        }
        resolve_all(&self.entries, offsets)
    }
}

/// Sorted sequences that hold, for each offset, the same entries in the
/// same order are the same sequence: what [`is_stable_sort_of`] asks of a
/// sequence, one sequence alone meets.
pub proof fn lemma_stable_sort_unique(
    a: Seq<MappingEntryView>,
    b: Seq<MappingEntryView>,
    given: Seq<MappingEntryView>,
)
    requires
        is_stable_sort_of(a, given),
        is_stable_sort_of(b, given),
    ensures
        a == b,
{
    assert forall|offset: int| #[trigger] with_offset(a, offset) == with_offset(b, offset) by {
        assert(with_offset(a, offset) == with_offset(given, offset));
        assert(with_offset(b, offset) == with_offset(given, offset));
    }
    lemma_sorted_determined(a, b);
}

/// Two sorted sequences of one length are equal where each offset has the
/// same entries in the same order in both.
proof fn lemma_sorted_determined(a: Seq<MappingEntryView>, b: Seq<MappingEntryView>)
    requires
        a.len() == b.len(),
        sorted_by_offset(a),
        sorted_by_offset(b),
        forall|offset: int| #[trigger] with_offset(a, offset) == with_offset(b, offset),
    ensures
        a == b,
    decreases a.len(),
{
    if a.len() == 0 {
        assert(a =~= b);
    } else {
        let top = a.last().generated_offset;
        let other = b.last().generated_offset;
        let shorter_a = a.drop_last();
        let shorter_b = b.drop_last();
        // the greatest offset of one is an offset of the other
        assert(top == other) by {
            assert(with_offset(a, top).len() > 0);
            assert(with_offset(b, other).len() > 0);
            assert(with_offset(b, top) == with_offset(a, top));
            assert(with_offset(a, other) == with_offset(b, other));
            if top < other {
                assert forall|j: int| 0 <= j < a.len() implies a[j].generated_offset
                    != other by {
                    assert(a[j].generated_offset <= a[a.len() - 1].generated_offset);
                }
                lemma_with_offset_none(a, other);
            }
            if other < top {
                assert forall|j: int| 0 <= j < b.len() implies b[j].generated_offset
                    != top by {
                    assert(b[j].generated_offset <= b[b.len() - 1].generated_offset);
                }
                lemma_with_offset_none(b, top);
            }
        }
        assert(a.last() == b.last()) by {
            assert(with_offset(a, top).last() == a.last());
            assert(with_offset(b, top).last() == b.last());
            assert(with_offset(a, top) == with_offset(b, top));
        }
        assert forall|offset: int| #[trigger]
            with_offset(shorter_a, offset) == with_offset(shorter_b, offset) by {
            assert(with_offset(a, offset) == with_offset(b, offset));
            if offset == top {
                assert(with_offset(a, offset).drop_last() =~= with_offset(shorter_a, offset));
                assert(with_offset(b, offset).drop_last() =~= with_offset(shorter_b, offset));
            }
        }
        assert(sorted_by_offset(shorter_a)) by {
            assert forall|i: int, j: int| 0 <= i <= j < shorter_a.len() implies shorter_a[i].generated_offset
                <= shorter_a[j].generated_offset by {
                assert(a[i].generated_offset <= a[j].generated_offset);
            }
        }
        assert(sorted_by_offset(shorter_b)) by {
            assert forall|i: int, j: int| 0 <= i <= j < shorter_b.len() implies shorter_b[i].generated_offset
                <= shorter_b[j].generated_offset by {
                assert(b[i].generated_offset <= b[j].generated_offset);
            }
        }
        lemma_sorted_determined(shorter_a, shorter_b);
        assert(a =~= shorter_a.push(a.last()));
        assert(b =~= shorter_b.push(b.last()));
    }
}

/// Filtering by offset goes through concatenation.
proof fn lemma_with_offset_concat(a: Seq<MappingEntryView>, b: Seq<MappingEntryView>, offset: int)
    ensures
        with_offset(a + b, offset) == with_offset(a, offset) + with_offset(b, offset),
    decreases b.len(),
{
    if b.len() == 0 {
        assert(a + b =~= a);
        assert(with_offset(a, offset) + with_offset(b, offset) =~= with_offset(a, offset));
    } else {
        assert((a + b).drop_last() =~= a + b.drop_last());
        lemma_with_offset_concat(a, b.drop_last(), offset);
        assert(with_offset(a + b, offset) =~= with_offset(a, offset) + with_offset(b, offset));
    }
}

/// Entries that all differ from an offset hold none with that offset.
proof fn lemma_with_offset_none(s: Seq<MappingEntryView>, offset: int)
    requires
        forall|j: int| 0 <= j < s.len() ==> s[j].generated_offset != offset,
    ensures
        with_offset(s, offset) == Seq::<MappingEntryView>::empty(),
    decreases s.len(),
{
    if s.len() > 0 {
        let shorter = s.drop_last();
        assert forall|j: int| 0 <= j < shorter.len() implies shorter[j].generated_offset
            != offset by {
            assert(shorter[j] == s[j]);
        }
        lemma_with_offset_none(shorter, offset);
    }
}

/// Putting an entry behind all entries of a sorted run that do not exceed
/// it, and before all that do, appends it to the entries of its own offset
/// and leaves those of every other offset alone.
proof fn lemma_with_offset_insert(
    head: Seq<MappingEntryView>,
    p: int,
    moved: MappingEntryView,
    offset: int,
)
    requires
        0 <= p <= head.len(),
        forall|j: int| p <= j < head.len() ==> head[j].generated_offset > moved.generated_offset,
    ensures
        with_offset(head.insert(p, moved), offset) == with_offset(head.push(moved), offset),
{
    let front = head.take(p);
    let back = head.skip(p);
    let one = seq![moved];
    assert(head.insert(p, moved) =~= front + one + back);
    assert(head =~= front + back);
    assert(one.drop_last() =~= Seq::<MappingEntryView>::empty());
    assert(with_offset(one.drop_last(), offset) =~= Seq::<MappingEntryView>::empty());
    assert(head.push(moved).drop_last() =~= head);
    lemma_with_offset_concat(front + one, back, offset);
    lemma_with_offset_concat(front, one, offset);
    lemma_with_offset_concat(front, back, offset);
    if moved.generated_offset == offset {
        lemma_with_offset_none(back, offset);
        assert(with_offset(one, offset) =~= one);
        assert(with_offset(front, offset) + one + Seq::<MappingEntryView>::empty() =~= (
        with_offset(front, offset) + Seq::<MappingEntryView>::empty()).push(moved));
    } else {
        assert(with_offset(one, offset) =~= Seq::<MappingEntryView>::empty());
        assert(with_offset(front, offset) + Seq::<MappingEntryView>::empty() + with_offset(
            back,
            offset,
        ) =~= with_offset(front, offset) + with_offset(back, offset));
    }
}

} // verus!
