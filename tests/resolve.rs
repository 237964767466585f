use deno_panic::resolve::{
    frame_offset, module_contains, module_handle_offset, segment_contains, segment_table_offset,
    segment_walk_offset, LoadedModule, Segment,
};

fn seg(vaddr: u64, mem_size: u64) -> Segment {
    Segment { loadable: true, vaddr, mem_size }
}

fn modules() -> Vec<LoadedModule> {
    vec![
        LoadedModule { base: 0x1000, segments: vec![seg(0, 0x100), seg(0x200, 0x100)] },
        LoadedModule {
            base: 0x10_0000,
            segments: vec![Segment { loadable: false, vaddr: 0, mem_size: 0x1000 }, seg(0x1000, 0x800)],
        },
    ]
}

#[test]
fn address_in_segment_resolves_to_offset_from_base() {
    let mods = modules();
    assert_eq!(segment_walk_offset(&mods, 0x1000), 0);
    assert_eq!(segment_walk_offset(&mods, 0x10ff), 0xff);
    assert_eq!(segment_walk_offset(&mods, 0x1250), 0x250);
    assert_eq!(segment_walk_offset(&mods, 0x10_1400), 0x1400);
}

#[test]
fn address_outside_all_segments_resolves_to_zero() {
    let mods = modules();
    assert_eq!(segment_walk_offset(&mods, 0x1100), 0);
    assert_eq!(segment_walk_offset(&mods, 0x1300), 0);
    assert_eq!(segment_walk_offset(&mods, 0x500), 0);
    assert_eq!(segment_walk_offset(&mods, 0x10_1800), 0);
    assert_eq!(segment_walk_offset(&[], 0x1234), 0);
}

#[test]
fn non_loadable_segment_is_skipped() {
    let mods = modules();
    assert_eq!(segment_walk_offset(&mods, 0x10_0010), 0);
    assert!(!module_contains(&mods[1], 0x10_0010));
    assert!(module_contains(&mods[1], 0x10_1000));
}

#[test]
fn first_module_that_holds_wins() {
    let mods = vec![
        LoadedModule { base: 0x2000, segments: vec![seg(0, 0x1000)] },
        LoadedModule { base: 0x1000, segments: vec![seg(0, 0x3000)] },
    ];
    assert_eq!(segment_walk_offset(&mods, 0x2500), 0x500);
    assert_eq!(segment_walk_offset(&mods, 0x1500), 0x500);
    assert_eq!(segment_walk_offset(&mods, 0x3500), 0x2500);
}

#[test]
fn segment_bounds_are_half_open() {
    let s = seg(0x10, 0x20);
    assert!(segment_contains(0x100, &s, 0x110));
    assert!(segment_contains(0x100, &s, 0x12f));
    assert!(!segment_contains(0x100, &s, 0x130));
    assert!(!segment_contains(0x100, &s, 0x10f));
}

#[test]
fn segment_reaching_end_of_address_space() {
    let s = seg(0, u64::MAX);
    assert!(segment_contains(0x10, &s, u64::MAX - 1));
    let m = LoadedModule { base: 0x10, segments: vec![s] };
    assert_eq!(segment_walk_offset(&[m], u64::MAX - 1), u64::MAX - 0x11);
}

#[test]
fn segment_table_strategy() {
    assert_eq!(segment_table_offset(0x1_0000_1234, 0x1000, 0x1_0000_0000), 0x234);
    assert_eq!(segment_table_offset(5, 3, 3), u64::MAX);
}

#[test]
fn module_handle_strategy() {
    assert_eq!(module_handle_offset(0x7ff0_1234, Some(0x7ff0_0000)), Some(0x1234));
    assert_eq!(module_handle_offset(0x7ff0_1234, None), None);
}

#[test]
fn frame_offset_keeps_low_32_bits() {
    assert_eq!(frame_offset(0x1234), 0x1234);
    assert_eq!(frame_offset(0x1_0000_0005), 5);
    assert_eq!(frame_offset(0xffff_ffff), -1);
}
