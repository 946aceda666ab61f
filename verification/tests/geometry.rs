use std::collections::HashMap;
use std::rc::Rc;

use veryl_analyzer::layout::{
    ArrayProjectionFragment, ArrayProjectionLayout, CallResult, EvaluationCache, FrozenVariableRead,
    KeyVersion, PackedProjectionFragment, PackedProjectionLayout, RegionGroup, RegionVersion,
};
use veryl_analyzer::partition::NodeKey;
use veryl_analyzer::projection::{destination_array_projection, DestinationArraySelection};
use veryl_analyzer::span::{ArraySpan, PackedSpan};

const WIDTH: usize = 256;

#[test]
fn periodic_projection_is_constant_work_for_a_large_destination() {
    let selection = DestinationArraySelection {
        dynamic: true,
        period: Some(2),
        phase: 1,
        extent: Some(1),
        static_filters: Vec::new(),
    };
    let candidates = ArraySpan { start: 0, length: 1_000_000 };

    assert!(destination_array_projection(
        ArraySpan { start: 999_998, length: 1 },
        candidates,
        &selection
    )
    .is_none());
    let selected = destination_array_projection(
        ArraySpan { start: 999_999, length: 1 },
        candidates,
        &selection,
    )
    .expect("the odd static suffix is reachable");
    assert_eq!(selected.source, ArraySpan { start: 0, length: 1 });
    assert_eq!(selected.array_offset, Some(999_999));

    let broad = destination_array_projection(candidates, candidates, &selection)
        .expect("a broad key contains periodic candidates");
    assert_eq!(broad.source, ArraySpan { start: 0, length: 1 });
    assert_eq!(broad.array_offset, None);
}

#[test]
fn unavailable_or_overflowed_periodic_geometry_falls_back_conservatively() {
    let key = ArraySpan { start: 0, length: 4 };
    for selection in [
        DestinationArraySelection {
            dynamic: true,
            period: None,
            phase: 0,
            extent: Some(1),
            static_filters: Vec::new(),
        },
        DestinationArraySelection {
            dynamic: true,
            period: Some(usize::MAX),
            phase: usize::MAX,
            extent: Some(1),
            static_filters: Vec::new(),
        },
    ] {
        let projection = destination_array_projection(key, key, &selection)
            .expect("unknown geometry must retain every possible candidate");
        assert_eq!(projection.destination, key);
        assert_eq!(projection.array_offset, None);
    }
}

fn call_result() -> CallResult {
    CallResult {
        region_groups: (0..WIDTH)
            .map(|start| RegionGroup {
                array: ArraySpan { start, length: 1 },
                regions: vec![RegionVersion {
                    packed: PackedSpan::new(0, 1).expect("unit span"),
                    version: start,
                }],
            })
            .collect(),
    }
}

fn assert_shared_lookups<T>(cache: &HashMap<usize, Rc<T>>, key: usize, value: &Rc<T>) {
    let before = Rc::strong_count(value);
    let handles: Vec<Rc<T>> = (0..WIDTH).map(|_| Rc::clone(&cache[&key])).collect();
    assert!(handles.iter().all(|handle| Rc::ptr_eq(handle, value)));
    assert_eq!(Rc::strong_count(value), before + WIDTH);
}

#[test]
fn large_value_lookups_clone_only_shared_handles() {
    let call = Rc::new(call_result());
    let variable = Rc::new(FrozenVariableRead {
        selectors: (0..WIDTH).collect(),
        versions: (0..WIDTH)
            .map(|start| KeyVersion {
                key: NodeKey { id: 0, array: ArraySpan { start, length: 1 }, index: 0 },
                version: start,
            })
            .collect(),
    });
    let packed_fragments = || {
        (0..WIDTH)
            .map(|output_start| PackedProjectionFragment {
                part: output_start,
                output_start,
                item_width: 1,
                repeat: 1,
            })
            .collect()
    };
    let packed = Rc::new(PackedProjectionLayout {
        fragments: packed_fragments(),
        controls: (0..WIDTH).collect(),
    });
    let array = Rc::new(ArrayProjectionLayout {
        fragments: (0..WIDTH)
            .map(|output_start| ArrayProjectionFragment {
                item: output_start,
                output_start,
                item_length: 1,
                repeat: 1,
                output_length: 1,
            })
            .collect(),
        controls: (0..WIDTH).collect(),
        total: WIDTH,
    });
    let members =
        Rc::new(PackedProjectionLayout { fragments: packed_fragments(), controls: Vec::new() });

    let mut cache = EvaluationCache::new();
    cache.calls.insert(1, Rc::clone(&call));
    cache.variable_reads.insert(2, Rc::clone(&variable));
    cache.packed_layouts.insert(3, Rc::clone(&packed));
    cache.array_layouts.insert(3, Rc::clone(&array));
    cache.struct_layouts.insert(3, Rc::clone(&members));

    assert_shared_lookups(&cache.calls, 1, &call);
    assert_shared_lookups(&cache.variable_reads, 2, &variable);
    assert_shared_lookups(&cache.packed_layouts, 3, &packed);
    assert_shared_lookups(&cache.array_layouts, 3, &array);
    assert_shared_lookups(&cache.struct_layouts, 3, &members);
}

#[test]
fn unpacked_call_result_queries_do_not_scan_every_array_group() {
    let result = call_result();
    for start in 0..WIDTH {
        let found: Vec<(ArraySpan, usize)> = result
            .region_groups_in(Some(ArraySpan { start, length: 1 }))
            .into_iter()
            .map(|group| (result.region_groups[group].array, result.region_groups[group].regions.len()))
            .collect();
        assert_eq!(found, vec![(ArraySpan { start, length: 1 }, 1)]);
    }
}
