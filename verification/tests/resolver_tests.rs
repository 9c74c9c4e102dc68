use srcmap_lookup::entry::MappingEntry;
use srcmap_lookup::resolver::{
    closest_source_before, floor_search, get_source, partition_point, resolve_all, Resolution,
};
use srcmap_lookup::table::{sort_by_offset, DecodeError, MappingTable};

fn names(list: &[&str]) -> Vec<String> {
    list.iter().map(|s| s.to_string()).collect()
}

fn at(offset: u32, source: &str, line: u32, column: u32) -> MappingEntry {
    MappingEntry::attributed(offset, source.to_string(), line, column)
}

fn bare(offset: u32) -> MappingEntry {
    MappingEntry::unattributed(offset)
}

fn sample() -> Vec<MappingEntry> {
    vec![
        bare(4),
        at(10, "a.ts", 3, 2),
        bare(20),
        bare(25),
        at(30, "b.ts", 7, 0),
        bare(40),
    ]
}

#[test]
fn query_at_first_offset_of_decoded_map() {
    let table = MappingTable::decode("AAAA,UAASA,KAAK", &names(&["a.ts"])).unwrap();
    assert_eq!(table.len(), 3);
    assert_eq!(table.get_source(0), Resolution::Resolved { entry: 0 });
    assert_eq!(table.entries()[0].generated_offset, 0);
    assert_eq!(table.entries()[0], at(0, "a.ts", 1, 0));
}

#[test]
fn sourceless_match_without_earlier_source() {
    let table = MappingTable::from_entries(vec![bare(0), at(10, "a.ts", 3, 2)]);
    let resolution = table.get_source(5);
    assert_eq!(resolution, Resolution::Generated { entry: 0, closest_source: None });
    assert_eq!(table.entries()[0].generated_offset, 0);
    assert_eq!(table.entries()[0].source(), None);
}

#[test]
fn empty_mappings_give_no_table() {
    assert_eq!(MappingTable::decode("", &names(&["a.ts"])).err(), Some(DecodeError::NoEntries));
}

#[test]
fn mappings_without_quantities_give_no_table() {
    let sources = names(&["a.ts"]);
    assert_eq!(MappingTable::decode(";;,,;", &sources).err(), Some(DecodeError::NoEntries));
    assert_eq!(MappingTable::decode("g", &sources).err(), Some(DecodeError::NoEntries));
    assert_eq!(MappingTable::decode("==", &sources).err(), Some(DecodeError::NoEntries));
    assert!(MappingTable::decode("A", &sources).is_ok());
}

#[test]
fn floor_of_every_query() {
    let offsets: Vec<u32> = vec![3, 8, 15, 16, 23, 42, 100];
    let entries: Vec<MappingEntry> = offsets.iter().map(|o| at(*o, "a.ts", 1, 0)).collect();
    for query in 0u32..120 {
        let expected = offsets.iter().rposition(|o| *o <= query);
        assert_eq!(floor_search(&entries, query), expected, "query {}", query);
        let resolution = get_source(&entries, query);
        match expected {
            Some(i) => assert_eq!(resolution, Resolution::Resolved { entry: i }),
            None => assert_eq!(resolution, Resolution::NoMapping),
        }
    }
}

#[test]
fn query_between_two_entries_takes_the_earlier() {
    let entries = vec![at(10, "a.ts", 1, 0), at(20, "a.ts", 2, 0)];
    assert_eq!(get_source(&entries, 19), Resolution::Resolved { entry: 0 });
    assert_eq!(get_source(&entries, 11), Resolution::Resolved { entry: 0 });
    assert_eq!(get_source(&entries, 20), Resolution::Resolved { entry: 1 });
}

#[test]
fn query_before_all_entries_has_no_mapping() {
    let entries = sample();
    assert_eq!(get_source(&entries, 0), Resolution::NoMapping);
    assert_eq!(get_source(&entries, 3), Resolution::NoMapping);
    assert_eq!(get_source(&Vec::new(), 7), Resolution::NoMapping);
}

#[test]
fn query_beyond_all_entries_takes_the_last() {
    let entries = sample();
    assert_eq!(
        get_source(&entries, u32::MAX),
        Resolution::Generated { entry: 5, closest_source: Some(4) }
    );
}

#[test]
fn exact_match() {
    let entries = sample();
    assert_eq!(get_source(&entries, 10), Resolution::Resolved { entry: 1 });
    assert_eq!(get_source(&entries, 30), Resolution::Resolved { entry: 4 });
}

#[test]
fn closest_source_is_the_nearest_before() {
    let entries = sample();
    assert_eq!(get_source(&entries, 4), Resolution::Generated { entry: 0, closest_source: None });
    assert_eq!(
        get_source(&entries, 20),
        Resolution::Generated { entry: 2, closest_source: Some(1) }
    );
    assert_eq!(
        get_source(&entries, 29),
        Resolution::Generated { entry: 3, closest_source: Some(1) }
    );
    assert_eq!(
        get_source(&entries, 45),
        Resolution::Generated { entry: 5, closest_source: Some(4) }
    );
}

#[test]
fn closest_source_never_looks_ahead() {
    let entries = vec![bare(1), bare(2), at(3, "a.ts", 1, 0)];
    assert_eq!(get_source(&entries, 2), Resolution::Generated { entry: 1, closest_source: None });
    assert_eq!(closest_source_before(&entries, 2), None);
    assert_eq!(closest_source_before(&entries, 3), Some(2));
    assert_eq!(closest_source_before(&entries, 0), None);
}

#[test]
fn entries_of_equal_offset_resolve_to_the_last() {
    let entries = vec![at(5, "a.ts", 1, 0), bare(5), at(9, "a.ts", 2, 0)];
    assert_eq!(get_source(&entries, 5), Resolution::Generated { entry: 1, closest_source: Some(0) });
    assert_eq!(get_source(&entries, 8), Resolution::Generated { entry: 1, closest_source: Some(0) });
}

#[test]
fn partition_point_counts_entries_up_to_an_offset() {
    let entries = sample();
    assert_eq!(partition_point(&entries, 6, 0), 0);
    assert_eq!(partition_point(&entries, 6, 4), 1);
    assert_eq!(partition_point(&entries, 6, 29), 4);
    assert_eq!(partition_point(&entries, 6, 40), 6);
    assert_eq!(partition_point(&entries, 3, 40), 3);
    assert_eq!(partition_point(&entries, 0, 40), 0);
}

#[test]
fn several_queries_are_answered_in_order() {
    let entries = sample();
    let offsets = vec![30, 0, 22, 30, 4, 1000];
    let resolutions = resolve_all(&entries, &offsets);
    assert_eq!(
        resolutions,
        vec![
            Resolution::Resolved { entry: 4 },
            Resolution::NoMapping,
            Resolution::Generated { entry: 2, closest_source: Some(1) },
            Resolution::Resolved { entry: 4 },
            Resolution::Generated { entry: 0, closest_source: None },
            Resolution::Generated { entry: 5, closest_source: Some(4) },
        ]
    );
}

#[test]
fn each_answer_is_that_of_the_query_alone() {
    let table = MappingTable::from_entries(sample());
    let offsets: Vec<u32> = vec![45, 3, 10, 29, 3, 45, 0, 31];
    let together = table.resolve_all(&offsets);
    assert_eq!(together.len(), offsets.len());
    for (i, offset) in offsets.iter().enumerate() {
        assert_eq!(together[i], table.get_source(*offset));
    }
    let reversed: Vec<u32> = offsets.iter().rev().cloned().collect();
    let backwards = table.resolve_all(&reversed);
    for (i, resolution) in backwards.iter().rev().enumerate() {
        assert_eq!(*resolution, together[i]);
    }
    assert_eq!(table.resolve_all(&Vec::new()), Vec::<Resolution>::new());
}

#[test]
fn sort_is_stable() {
    let mut entries = vec![
        at(9, "first", 1, 0),
        at(3, "a", 1, 0),
        bare(9),
        at(3, "b", 1, 0),
        at(1, "z", 1, 0),
        at(9, "third", 1, 0),
        bare(3),
    ];
    sort_by_offset(&mut entries);
    assert_eq!(
        entries,
        vec![
            at(1, "z", 1, 0),
            at(3, "a", 1, 0),
            at(3, "b", 1, 0),
            bare(3),
            at(9, "first", 1, 0),
            bare(9),
            at(9, "third", 1, 0),
        ]
    );
}

#[test]
fn sort_leaves_sorted_entries_alone() {
    let mut entries = sample();
    sort_by_offset(&mut entries);
    assert_eq!(entries, sample());
    let mut none: Vec<MappingEntry> = Vec::new();
    sort_by_offset(&mut none);
    assert!(none.is_empty());
    let mut one = vec![bare(7)];
    sort_by_offset(&mut one);
    assert_eq!(one, vec![bare(7)]);
}

#[test]
fn sort_of_descending_entries() {
    let mut entries: Vec<MappingEntry> = (0u32..50).rev().map(|o| bare(o * 3)).collect();
    sort_by_offset(&mut entries);
    let expected: Vec<MappingEntry> = (0u32..50).map(|o| bare(o * 3)).collect();
    assert_eq!(entries, expected);
}

#[test]
fn table_of_a_map_with_backward_steps() {
    // offsets in the order of the map: 10, 4, 4, 30, 20
    let table = MappingTable::decode("UAAA,N,AACA,0B,V", &names(&["a.ts"])).unwrap();
    let offsets: Vec<u32> = table.entries().iter().map(|e| e.generated_offset).collect();
    assert_eq!(offsets, vec![4, 4, 10, 20, 30]);
    assert_eq!(
        table.entries(),
        &vec![bare(4), at(4, "a.ts", 2, 0), at(10, "a.ts", 1, 0), bare(20), bare(30)]
    );
    assert_eq!(table.get_source(4), Resolution::Resolved { entry: 1 });
    assert_eq!(table.get_source(25), Resolution::Generated { entry: 3, closest_source: Some(2) });
    assert_eq!(table.get_source(3), Resolution::NoMapping);
}
