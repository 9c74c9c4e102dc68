//! Decoding of a source map's `mappings` string into mapping entries.
//!
//! The string is a list of groups separated by `;`, each a list of segments
//! separated by `,`. A segment holds one or four (or more) quantities, each
//! a change to a counter that runs through the whole string: the generated
//! offset, the index into the list of sources, the line and the column in
//! the source. No counter starts over at a group's end.

use crate::entry::{
    entry_views, source_names, MappingEntry, MappingEntryView, SourcePosition, SourcePositionView,
};
use crate::segments::{
    ends_segment, lemma_segments_append, lemma_segments_len, no_separator, segments,
};
use crate::vlq::{
    as_ints, lemma_encoding_is_digits, lemma_vlq_round_trip_all, vlq_decode_spec, vlq_encode_all,
    vlq_representable, vlq_scan_from, vlq_start, VlqDecoder,
};
use crate::wrap::{lemma_wrap_add, to_unsigned, wrap_i32, wrap_u32};
use vstd::prelude::*;

verus! {

/// The quantities of each segment that holds any, in order. A segment
/// without a complete quantity is passed over.
pub open spec fn field_lists(segs: Seq<Seq<char>>) -> Seq<Seq<int>>
    decreases segs.len(),
{
    if segs.len() == 0 {
        Seq::empty()
    } else {
        let before = field_lists(segs.drop_last());
        let fields = vlq_decode_spec(segs.last());
        if fields.len() > 0 {
            before.push(fields)
        } else {
            before
        }
    }
}

/// The four running counters, as mathematical integers.
pub struct Totals {
    pub generated_offset: int,
    pub source_index: int,
    pub original_line: int,
    pub original_column: int,
}

/// The counters before any segment.
pub open spec fn totals_start() -> Totals {
    Totals { generated_offset: 0, source_index: 0, original_line: 0, original_column: 0 }
}

/// Whether a segment's quantities name a source position.
pub open spec fn has_position(fields: Seq<int>) -> bool {
    fields.len() >= 4
}

/// The counters after one more segment: the first quantity is added to the
/// generated offset; the second, third and fourth, where there are four,
/// to source index, line and column. Quantities beyond the fourth are
/// ignored.
pub open spec fn totals_add(t: Totals, fields: Seq<int>) -> Totals
    recommends
        fields.len() >= 1,
{
    if has_position(fields) {
        Totals {
            generated_offset: t.generated_offset + fields[0],
            source_index: t.source_index + fields[1],
            original_line: t.original_line + fields[2],
            original_column: t.original_column + fields[3],
        }
    } else {
        Totals { generated_offset: t.generated_offset + fields[0], ..t }
    }
}

/// The sums of all changes that a sequence of segments makes.
pub open spec fn totals_of(lists: Seq<Seq<int>>) -> Totals
    decreases lists.len(),
{
    if lists.len() == 0 {
        totals_start()
    } else {
        totals_add(totals_of(lists.drop_last()), lists.last())
    }
}

/// The counters as the machine holds them: the generated offset as an
/// unsigned 32-bit number, the others as signed ones.
pub open spec fn wrapped(t: Totals) -> Totals {
    Totals {
        generated_offset: wrap_u32(t.generated_offset),
        source_index: wrap_i32(t.source_index),
        original_line: wrap_i32(t.original_line),
        original_column: wrap_i32(t.original_column),
    }
}

/// The entry that a segment gives, from the counters after it. The source
/// is looked up by index, the line is the line counter plus one, the column
/// is the column counter. A segment without a position, or one whose index
/// names no source, gives an entry without position.
pub open spec fn entry_of(t: Totals, fields: Seq<int>, sources: Seq<Seq<char>>) -> MappingEntryView {
    let index = wrap_i32(t.source_index);
    MappingEntryView {
        generated_offset: wrap_u32(t.generated_offset),
        position: if has_position(fields) && 0 <= index < sources.len() {
            Some(
                SourcePositionView {
                    source: sources[index],
                    line: wrap_u32(t.original_line + 1),
                    column: wrap_u32(t.original_column),
                },
            )
        } else {
            None
        },
    }
}

/// The entry of the segment at `i`: its counters are the sums over all
/// segments up to and including it.
pub open spec fn entry_at(lists: Seq<Seq<int>>, sources: Seq<Seq<char>>, i: int) -> MappingEntryView
    recommends
        0 <= i < lists.len(),
{
    entry_of(totals_of(lists.take(i + 1)), lists[i], sources)
}

/// The entries of a sequence of segments, one for each, in order.
pub open spec fn decoded_entries(lists: Seq<Seq<int>>, sources: Seq<Seq<char>>) -> Seq<
    MappingEntryView,
> {
    Seq::new(lists.len(), |i: int| entry_at(lists, sources, i))
}

/// The entries that a mappings string holds, in the order of the string.
pub open spec fn decode_spec(mappings: Seq<char>, sources: Seq<Seq<char>>) -> Seq<
    MappingEntryView,
> {
    decoded_entries(field_lists(segments(mappings)), sources)
}

/// The running counters of a decoding pass.
#[derive(Debug, Clone, Copy, PartialEq, Eq)]
pub struct Counters {
    pub generated_offset: u32,
    pub source_index: i32,
    pub original_line: i32,
    pub original_column: i32,
}

impl View for Counters {
    type V = Totals;

    open spec fn view(&self) -> Totals {
        Totals {
            generated_offset: self.generated_offset as int,
            source_index: self.source_index as int,
            original_line: self.original_line as int,
            original_column: self.original_column as int,
        }
    }
}

impl Counters {
    /// Counters at zero.
    pub fn new() -> (c: Counters)
        ensures
            c@ == totals_start(),
    {
        Counters { generated_offset: 0, source_index: 0, original_line: 0, original_column: 0 }
    }

    /// Applies the changes of one segment. Each counter wraps around at 32
    /// bits.
    pub fn advance(&mut self, fields: &Vec<i32>)
        requires
            fields.len() >= 1,
        ensures
            final(self)@ == wrapped(totals_add(old(self)@, as_ints(fields@))),
    {
        self.generated_offset = self.generated_offset.wrapping_add_signed(fields[0]);
        if fields.len() >= 4 {
            self.source_index = self.source_index.wrapping_add(fields[1]);
            self.original_line = self.original_line.wrapping_add(fields[2]);
            self.original_column = self.original_column.wrapping_add(fields[3]);
        }
    }

    /// The entry of a segment, from the counters after it.
    pub fn entry(&self, fields: &Vec<i32>, sources: &Vec<String>) -> (entry: MappingEntry)
        ensures
            entry@ == entry_of(self@, as_ints(fields@), source_names(sources@)),
    {
        let mut position: Option<SourcePosition> = None;
        if fields.len() >= 4 && self.source_index >= 0 {
            let index: usize = self.source_index as usize;
            if index < sources.len() {
                position = Some(
                    SourcePosition {
                        source: sources[index].clone(),
                        line: to_unsigned(self.original_line.wrapping_add(1)),
                        column: to_unsigned(self.original_column),
                    },
                );
            }
        }
        MappingEntry { generated_offset: self.generated_offset, position }
    }
}

/// Takes one segment into a decoding pass: moves the counters on by the
/// segment's quantities and gives the segment's entry.
pub fn apply_segment(counters: &mut Counters, fields: &Vec<i32>, sources: &Vec<String>) -> (entry:
    MappingEntry)
    requires
        fields.len() >= 1,
    ensures
        final(counters)@ == wrapped(totals_add(old(counters)@, as_ints(fields@))),
        entry@ == entry_of(final(counters)@, as_ints(fields@), source_names(sources@)),
{
    counters.advance(fields);
    counters.entry(fields, sources)
}

/// Ends the segment that a decoder has been fed: if it holds a quantity,
/// its entry is appended. The decoder is left ready for the next segment.
fn close_segment(
    dec: &mut VlqDecoder,
    counters: &mut Counters,
    entries: &mut Vec<MappingEntry>,
    sources: &Vec<String>,
    Ghost(done): Ghost<Seq<Seq<int>>>,
)
    requires
        old(counters)@ == wrapped(totals_of(done)),
        entry_views(old(entries)@) == decoded_entries(done, source_names(sources@)),
    ensures
        final(dec)@ == vlq_start(),
        ({
            let fields = old(dec)@.values;
            let all = if fields.len() > 0 {
                done.push(fields)
            } else {
                done
            };
            &&& final(counters)@ == wrapped(totals_of(all))
            &&& entry_views(final(entries)@) == decoded_entries(all, source_names(sources@))
        }),
{
    let fields = dec.values();
    assert(as_ints(fields@).len() == fields@.len());
    if fields.len() > 0 {
        let entry = apply_segment(counters, fields, sources);
        entries.push(entry);
        proof {
            let fields = dec@.values;
            let names = source_names(sources@);
            let all = done.push(fields);
            assert(all.drop_last() =~= done);
            lemma_wrapped_add(totals_of(done), fields);
            lemma_entry_of_wrapped(totals_of(all), fields, names);
            lemma_decoded_entries_push(done, fields, names);
            assert(entry_views(entries@) =~= entry_views(old(entries)@).push(entry@));
        }
    }
    dec.reset();
}

/// Decodes a mappings string into its entries, in the order of the string.
/// `sources` is the map's list of source names.
pub fn decode_mappings(mappings: &str, sources: &Vec<String>) -> (entries: Vec<MappingEntry>)
    ensures
        entry_views(entries@) == decode_spec(mappings@, source_names(sources@)),
{
    let mut entries: Vec<MappingEntry> = Vec::new();
    let mut counters = Counters::new();
    let mut dec = VlqDecoder::new();
    proof {
        assert(entry_views(entries@) =~= decoded_entries(
            Seq::<Seq<int>>::empty(),
            source_names(sources@),
        ));
        assert(mappings@.take(0) =~= Seq::<char>::empty());
        assert(segments(mappings@.take(0)).drop_last() =~= Seq::<Seq<char>>::empty());
    }
    for c in it: mappings.chars()
        invariant
            it.seq() == mappings@,
            ({
                let segs = segments(mappings@.take(it.index() as int));
                let done = field_lists(segs.drop_last());
                &&& dec@ == vlq_scan_from(vlq_start(), segs.last())
                &&& counters@ == wrapped(totals_of(done))
                &&& entry_views(entries@) == decoded_entries(done, source_names(sources@))
            }),
    {
        let ghost seen = mappings@.take(it.index() as int);
        let ghost segs = segments(seen);
        proof {
            lemma_segments_len(seen);
            assert(mappings@.take(it.index() + 1).drop_last() =~= seen);
        }
        if ends_segment(c) {
            close_segment(
                &mut dec,
                &mut counters,
                &mut entries,
                sources,
                Ghost(field_lists(segs.drop_last())),
            );
            proof {
                assert(segs.push(Seq::empty()).drop_last() =~= segs);
            }
        } else {
            dec.feed(c);
            proof {
                let grown = segs.drop_last().push(segs.last().push(c));
                assert(grown.drop_last() =~= segs.drop_last());
                assert(segs.last().push(c).drop_last() =~= segs.last());
            }
        }
    }
    proof {
        assert(mappings@.take(mappings@.len() as int) =~= mappings@);
        lemma_segments_len(mappings@);
    }
    close_segment(
        &mut dec,
        &mut counters,
        &mut entries,
        sources,
        Ghost(field_lists(segments(mappings@).drop_last())),
    );
    entries
}

/// The mappings string that writes the given segments, with `,` between
/// one segment and the next.
pub open spec fn encode_segments(lists: Seq<Seq<int>>) -> Seq<char>
    decreases lists.len(),
{
    if lists.len() == 0 {
        Seq::empty()
    } else if lists.len() == 1 {
        vlq_encode_all(lists[0])
    } else {
        encode_segments(lists.drop_last()).push(',') + vlq_encode_all(lists.last())
    }
}

/// Whether every segment holds a quantity and holds none that a decoder
/// would not give back.
pub open spec fn encodable(lists: Seq<Seq<int>>) -> bool {
    forall|i: int|
        0 <= i < lists.len() ==> {
            &&& (#[trigger] lists[i]).len() >= 1
            &&& forall|j: int| 0 <= j < lists[i].len() ==> vlq_representable(#[trigger] lists[i][j])
        }
}

/// The segments of an encoded string are the encodings of the segments
/// that were written.
proof fn lemma_segments_of_encoded(lists: Seq<Seq<int>>)
    requires
        lists.len() >= 1,
    ensures
        segments(encode_segments(lists)).len() == lists.len(),
        forall|i: int|
            0 <= i < lists.len() ==> #[trigger] segments(encode_segments(lists))[i]
                == vlq_encode_all(lists[i]),
    decreases lists.len(),
{
    let none = Seq::<char>::empty();
    let last = vlq_encode_all(lists.last());
    assert(no_separator(last)) by {
        lemma_encoding_is_digits(lists.last());
    }
    if lists.len() == 1 {
        lemma_segments_append(none, last);
        assert(none + last =~= last);
        assert(segments(none) =~= seq![none]);
        assert(segments(last) =~= seq![last]);
    } else {
        let before = encode_segments(lists.drop_last());
        lemma_segments_of_encoded(lists.drop_last());
        assert(before.push(',').drop_last() =~= before);
        assert(segments(before.push(',')) == segments(before).push(none));
        lemma_segments_append(before.push(','), last);
        assert(segments(before).push(none).drop_last() =~= segments(before));
        assert(none + last =~= last);
        assert(segments(encode_segments(lists)) == segments(before).push(last));
        assert forall|i: int| 0 <= i < lists.len() implies #[trigger] segments(
            encode_segments(lists),
        )[i] == vlq_encode_all(lists[i]) by {
            if i < lists.len() - 1 {
                assert(segments(before)[i] == vlq_encode_all(lists.drop_last()[i]));
            }
        }
    }
}

/// The encodings of segments decode to the segments.
proof fn lemma_field_lists_of_encoded(segs: Seq<Seq<char>>, lists: Seq<Seq<int>>)
    requires
        encodable(lists),
        segs.len() == lists.len(),
        forall|i: int| 0 <= i < lists.len() ==> #[trigger] segs[i] == vlq_encode_all(lists[i]),
    ensures
        field_lists(segs) == lists,
    decreases segs.len(),
{
    if segs.len() == 0 {
        assert(lists =~= Seq::<Seq<int>>::empty());
    } else {
        let shorter = lists.drop_last();
        assert(encodable(shorter)) by {
            assert forall|i: int| 0 <= i < shorter.len() implies {
                &&& (#[trigger] shorter[i]).len() >= 1
                &&& forall|j: int|
                    0 <= j < shorter[i].len() ==> vlq_representable(#[trigger] shorter[i][j])
            } by {
                assert(shorter[i] == lists[i]);
            }
        }
        assert forall|i: int| 0 <= i < shorter.len() implies #[trigger] segs.drop_last()[i]
            == vlq_encode_all(shorter[i]) by {
            assert(segs.drop_last()[i] == segs[i]);
        }
        lemma_field_lists_of_encoded(segs.drop_last(), shorter);
        let k = lists.len() - 1;
        assert(segs[k] == vlq_encode_all(lists[k]));
        assert(lists[k].len() >= 1);
        lemma_vlq_round_trip_all(lists[k]);
        assert(shorter.push(lists.last()) =~= lists);
    }
}

/// Decoding what was written gives entries whose counters are the sums of
/// what was written: segments of representable quantities, written with
/// `,` between them, decode to one entry each, the entry of a segment
/// holding the sums of all changes up to and including its own.
pub proof fn lemma_decode_of_encoded(lists: Seq<Seq<int>>, sources: Seq<Seq<char>>)
    requires
        encodable(lists),
    ensures
        field_lists(segments(encode_segments(lists))) == lists,
        decode_spec(encode_segments(lists), sources) == decoded_entries(lists, sources),
{
    if lists.len() == 0 {
        let none = Seq::<char>::empty();
        let segs = segments(encode_segments(lists));
        assert(segs =~= seq![none]);
        assert(segs.drop_last() =~= Seq::<Seq<char>>::empty());
        assert(field_lists(segs.drop_last()) =~= Seq::<Seq<int>>::empty());
        assert(vlq_decode_spec(none) =~= Seq::<int>::empty());
        assert(field_lists(segs) =~= lists);
    } else {
        lemma_segments_of_encoded(lists);
        lemma_field_lists_of_encoded(segments(encode_segments(lists)), lists);
    }
}

/// Counters that wrapped earlier give the same wrapped sums.
proof fn lemma_wrapped_add(t: Totals, fields: Seq<int>)
    ensures
        wrapped(totals_add(wrapped(t), fields)) == wrapped(totals_add(t, fields)),
{
    lemma_wrap_add(t.generated_offset, fields[0]);
    lemma_wrap_add(t.source_index, fields[1]);
    lemma_wrap_add(t.original_line, fields[2]);
    lemma_wrap_add(t.original_column, fields[3]);
    lemma_wrap_add(t.source_index, 0);
    lemma_wrap_add(t.original_line, 0);
    lemma_wrap_add(t.original_column, 0);
}

/// An entry is the same from wrapped counters as from the sums themselves.
proof fn lemma_entry_of_wrapped(t: Totals, fields: Seq<int>, sources: Seq<Seq<char>>)
    ensures
        entry_of(wrapped(t), fields, sources) == entry_of(t, fields, sources),
{
    lemma_wrap_add(t.generated_offset, 0);
    lemma_wrap_add(t.source_index, 0);
    lemma_wrap_add(t.original_line, 1);
    lemma_wrap_add(t.original_column, 0);
}

/// One more segment adds one entry and leaves the earlier ones as they
/// were.
proof fn lemma_decoded_entries_push(lists: Seq<Seq<int>>, fields: Seq<int>, sources: Seq<Seq<char>>)
    ensures
        decoded_entries(lists.push(fields), sources) == decoded_entries(lists, sources).push(
            entry_of(totals_of(lists.push(fields)), fields, sources),
        ),
{
    let all = lists.push(fields);
    assert(all.take(all.len() as int) =~= all);
    assert forall|i: int| 0 <= i < lists.len() implies entry_at(all, sources, i) == entry_at(
        lists,
        sources,
        i,
    ) by {
        assert(all.take(i + 1) =~= lists.take(i + 1));
    }
    assert(decoded_entries(all, sources) =~= decoded_entries(lists, sources).push(
        entry_of(totals_of(all), fields, sources),
    ));
}

} // verus!
