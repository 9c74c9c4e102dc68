//! The segments of a mappings string.
//!
//! The string is a list of groups separated by `;`, each a list of segments
//! separated by `,`. As nothing starts over at a group's end, the segments
//! of the string are the runs between one separator of either kind and the
//! next.

use vstd::prelude::*;

verus! {

/// Whether a character ends a segment.
pub open spec fn is_separator(c: char) -> bool {
    c == ',' || c == ';'
}

/// Whether a character ends a segment.
pub fn ends_segment(c: char) -> (yes: bool)
    ensures
        yes == is_separator(c),
{
    c == ',' || c == ';'
}

/// The segments of a mappings string: the runs of characters between one
/// separator and the next, empty runs included. A string with `n`
/// separators has `n + 1` segments.
pub open spec fn segments(mappings: Seq<char>) -> Seq<Seq<char>>
    decreases mappings.len(),
{
    if mappings.len() == 0 {
        seq![Seq::empty()]
    } else {
        let before = segments(mappings.drop_last());
        if is_separator(mappings.last()) {
            before.push(Seq::empty())
        } else {
            before.drop_last().push(before.last().push(mappings.last()))
        }
    }
}

/// The runs of characters between one occurrence of `separator` and the
/// next, empty runs included.
pub open spec fn split_at(s: Seq<char>, separator: char) -> Seq<Seq<char>>
    decreases s.len(),
{
    if s.len() == 0 {
        seq![Seq::empty()]
    } else {
        let before = split_at(s.drop_last(), separator);
        if s.last() == separator {
            before.push(Seq::empty())
        } else {
            before.drop_last().push(before.last().push(s.last()))
        }
    }
}

/// The segments of each group, group after group.
pub open spec fn segments_by_group(groups: Seq<Seq<char>>) -> Seq<Seq<char>>
    decreases groups.len(),
{
    if groups.len() == 0 {
        Seq::empty()
    } else {
        segments_by_group(groups.drop_last()) + split_at(groups.last(), ',')
    }
}

/// Whether no character of a run ends a segment.
pub open spec fn no_separator(s: Seq<char>) -> bool {
    forall|i: int| 0 <= i < s.len() ==> !is_separator(#[trigger] s[i])
}

/// A string has at least one segment.
pub proof fn lemma_segments_len(mappings: Seq<char>)
    ensures
        segments(mappings).len() >= 1,
    decreases mappings.len(),
{
    if mappings.len() > 0 {
        lemma_segments_len(mappings.drop_last());
    }
}

/// Splitting gives at least one run.
pub proof fn lemma_split_at_len(s: Seq<char>, separator: char)
    ensures
        split_at(s, separator).len() >= 1,
    decreases s.len(),
{
    if s.len() > 0 {
        lemma_split_at_len(s.drop_last(), separator);
    }
}

/// Splitting a mappings string into groups at each `;`, and each group into
/// segments at each `,`, gives the segments of the string.
pub proof fn lemma_segments_by_group(mappings: Seq<char>)
    ensures
        segments(mappings) == segments_by_group(split_at(mappings, ';')),
    decreases mappings.len(),
{
    let none = Seq::<char>::empty();
    if mappings.len() == 0 {
        let groups = split_at(mappings, ';');
        assert(groups.drop_last() =~= Seq::<Seq<char>>::empty());
        assert(segments_by_group(groups.drop_last()) =~= Seq::<Seq<char>>::empty());
        assert(segments_by_group(groups) =~= seq![none]);
    } else {
        let shorter = mappings.drop_last();
        let c = mappings.last();
        let groups = split_at(shorter, ';');
        let earlier = segments_by_group(groups.drop_last());
        let current = split_at(groups.last(), ',');
        lemma_segments_by_group(shorter);
        lemma_split_at_len(shorter, ';');
        lemma_split_at_len(groups.last(), ',');
        assert(segments(shorter) == earlier + current);
        if c == ';' {
            let grown = groups.push(none);
            assert(grown.drop_last() =~= groups);
            assert(split_at(none, ',') =~= seq![none]);
            assert(segments_by_group(grown) =~= segments(shorter).push(none));
        } else if c == ',' {
            let group = groups.last().push(c);
            let grown = groups.drop_last().push(group);
            assert(grown.drop_last() =~= groups.drop_last());
            assert(group.drop_last() =~= groups.last());
            assert(split_at(group, ',') == current.push(none));
            assert(segments_by_group(grown) =~= segments(shorter).push(none));
        } else {
            let group = groups.last().push(c);
            let grown = groups.drop_last().push(group);
            assert(grown.drop_last() =~= groups.drop_last());
            assert(group.drop_last() =~= groups.last());
            assert(split_at(group, ',') == current.drop_last().push(current.last().push(c)));
            assert(segments_by_group(grown) =~= segments(shorter).drop_last().push(
                segments(shorter).last().push(c),
            ));
        }
    }
}

/// Characters without a separator, written behind a string, lengthen its
/// last segment.
pub proof fn lemma_segments_append(mappings: Seq<char>, run: Seq<char>)
    requires
        no_separator(run),
    ensures
        segments(mappings + run) == segments(mappings).drop_last().push(
            segments(mappings).last() + run,
        ),
    decreases run.len(),
{
    lemma_segments_len(mappings);
    let before = segments(mappings);
    if run.len() == 0 {
        assert(mappings + run =~= mappings);
        assert(before.last() + run =~= before.last());
        assert(before.drop_last().push(before.last()) =~= before);
    } else {
        let shorter = run.drop_last();
        assert(no_separator(shorter)) by {
            assert forall|i: int| 0 <= i < shorter.len() implies !is_separator(
                #[trigger] shorter[i],
            ) by {
                assert(shorter[i] == run[i]);
            }
        }
        lemma_segments_append(mappings, shorter);
        assert((mappings + run).drop_last() =~= mappings + shorter);
        assert(!is_separator(run[run.len() - 1]));
        assert((before.last() + shorter).push(run.last()) =~= before.last() + run);
        assert(before.drop_last().push(before.last() + shorter).drop_last()
            =~= before.drop_last());
    }
}

} // verus!
