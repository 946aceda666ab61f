use std::collections::HashMap;

use veryl_analyzer::partition::{
    atomic_ranges, split_array_spans, BitPartition, IndexedRanges, NodeKey, RegionAccess,
};
use veryl_analyzer::span::{ArraySpan, PackedSpan};

fn access(id: u64, start: usize, length: usize, packed: PackedSpan) -> RegionAccess {
    RegionAccess {
        id,
        array: ArraySpan { start, length },
        packed,
    }
}

fn span(start: usize, length: usize) -> PackedSpan {
    PackedSpan { start, length }
}

fn packed_of(regions: &[IndexedRanges], id: u64, array: ArraySpan) -> Option<&[PackedSpan]> {
    regions
        .iter()
        .find(|region| region.id == id && region.array == array)
        .map(|region| region.packed.as_slice())
}

#[test]
fn disjoint_array_point_queries_do_not_scan_every_partition() {
    const COUNT: usize = 16_384;

    let id = 0;
    let packed = span(0, 32);
    let accesses: Vec<RegionAccess> = (0..COUNT).map(|start| access(id, start, 1, packed)).collect();

    let ranges = split_array_spans(&accesses, &HashMap::new());
    let partition = BitPartition::new(ranges);
    assert_eq!(partition.array_spans(id).len(), COUNT);
    for start in 0..COUNT {
        assert_eq!(
            partition.overlapping_access(id, ArraySpan { start, length: 1 }, packed),
            vec![NodeKey {
                id,
                array: ArraySpan { start, length: 1 },
                index: 0
            }]
        );
    }
}

#[test]
fn array_partition_sweep_keeps_an_access_active_until_its_own_end() {
    let id = 0;
    let packed = span(0, 1);
    let accesses = vec![access(id, 0, 2, packed), access(id, 1, 2, packed)];

    let ranges = split_array_spans(&accesses, &HashMap::new());
    for start in 0..3 {
        assert_eq!(
            packed_of(&ranges, id, ArraySpan { start, length: 1 }),
            Some([packed].as_slice())
        );
    }
}

#[test]
fn packed_partition_storage_depends_on_endpoints_not_declared_width() {
    let distant = 1_000_000_000;
    let spans = vec![span(0, 1), span(distant, 1)];

    assert_eq!(atomic_ranges(&spans, &Vec::new()), spans);
}

#[test]
fn overlapping_spans_are_cut_at_their_ends() {
    let spans = vec![span(0, 4), span(2, 6)];
    assert_eq!(
        atomic_ranges(&spans, &Vec::new()),
        vec![span(0, 2), span(2, 2), span(4, 4)]
    );
    assert_eq!(
        atomic_ranges(&spans, &vec![6, 100]),
        vec![span(0, 2), span(2, 2), span(4, 2), span(6, 2)]
    );
    assert!(atomic_ranges(&Vec::new(), &vec![1, 2]).is_empty());
}

#[test]
fn endpoints_cut_the_bits_of_one_variable() {
    let accesses = vec![access(1, 0, 1, span(0, 8)), access(2, 0, 1, span(0, 8))];
    let mut endpoints = HashMap::new();
    endpoints.insert(2, vec![3]);
    let ranges = split_array_spans(&accesses, &endpoints);
    let array = ArraySpan { start: 0, length: 1 };
    assert_eq!(packed_of(&ranges, 1, array), Some([span(0, 8)].as_slice()));
    assert_eq!(
        packed_of(&ranges, 2, array),
        Some([span(0, 3), span(3, 5)].as_slice())
    );
}

#[test]
fn accesses_without_elements_or_with_an_end_too_far_are_ignored() {
    let accesses = vec![
        access(1, 3, 0, span(0, 1)),
        access(1, usize::MAX, 2, span(0, 1)),
    ];
    assert!(split_array_spans(&accesses, &HashMap::new()).is_empty());
}

#[test]
fn an_access_is_the_union_of_the_nodes_it_touches() {
    let accesses = vec![
        access(1, 0, 4, span(0, 8)),
        access(1, 2, 4, span(4, 8)),
        access(2, 0, 1, span(0, 1)),
    ];
    let partition = BitPartition::new(split_array_spans(&accesses, &HashMap::new()));
    for access in &accesses {
        let keys = partition.overlapping_access(access.id, access.array, access.packed);
        let mut bits = 0;
        for key in &keys {
            let packed = partition.ranges_of(key.id, key.array).unwrap()[key.index];
            assert!(access.packed.start <= packed.start && packed.end() <= access.packed.end());
            assert!(access.array.start <= key.array.start);
            bits += key.array.length * packed.length;
        }
        assert_eq!(bits, access.array.length * access.packed.length);
    }
    assert!(partition
        .ranges_of(1, ArraySpan { start: 0, length: 4 })
        .is_none());
    assert!(partition
        .overlapping_access(3, ArraySpan { start: 0, length: 9 }, span(0, 9))
        .is_empty());
}
