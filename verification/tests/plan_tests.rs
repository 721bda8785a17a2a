use updater_core::oplist::OpList;
use updater_core::errors::UpdateError;
use updater_core::plan::{build_table_args, full_rebuild_plan, incremental_plan, is_incremental,
    PlannedCall, ResolvedSize, TableArg, ToolCmd};
use updater_core::superinfo::SuperLayoutInfo;

fn bv(s: &str) -> Vec<u8> {
    s.as_bytes().to_vec()
}

fn pair(k: &str, v: &str) -> (Vec<u8>, Vec<u8>) {
    (bv(k), bv(v))
}

fn ops(
    groups: Vec<(Vec<u8>, Vec<u8>)>,
    partitions: Vec<(Vec<u8>, Vec<u8>)>,
    sizes: Vec<(Vec<u8>, Vec<u8>)>,
    remove_all: bool,
) -> OpList {
    OpList {
        groups,
        partitions,
        sizes,
        remove_all_groups: remove_all,
        auto_detect_active_slot: false,
    }
}

fn info(slots: u64, device_size: u64) -> SuperLayoutInfo {
    SuperLayoutInfo {
        metadata_size: 65536,
        metadata_slot_count: slots,
        device_size,
        first_sector_bytes: 1048576,
        is_virtual_ab: false,
    }
}

#[test]
fn two_slot_args_resolve_auto_group_and_size_partition() {
    // Two metadata slots, one auto-sized group, one sized partition.
    let o = ops(
        vec![pair("group_a", "auto")],
        vec![pair("part_a", "group_a")],
        vec![pair("part_a", "10485760")],
        false,
    );
    let args = build_table_args(&info(2, 1073741824), &o).unwrap();
    assert!(args.contains(&TableArg::Group {
        name: bv("group_a"),
        size: ResolvedSize::Bytes(1073741824),
    }));
    assert!(args.contains(&TableArg::Partition {
        name: bv("part_a"),
        size: bv("10485760"),
        group: bv("group_a"),
    }));
    assert!(args.contains(&TableArg::Image { name: bv("part_a") }));
    assert_eq!(args.last(), Some(&TableArg::Output));
}

#[test]
fn three_slot_args_split_active_and_inactive() {
    // Three slots: sizes name only the _b partition, so _b is active;
    // cow_a exists as the inactive group and part_a gets a zero-sized
    // entry.
    let o = ops(
        vec![pair("cow_a", "5000"), pair("cow_b", "5000")],
        vec![pair("part_a", "cow_a"), pair("part_b", "cow_b")],
        vec![pair("part_b", "7000")],
        true,
    );
    let args = build_table_args(&info(3, 900000), &o).unwrap();
    assert!(args.contains(&TableArg::Group {
        name: bv("cow_b"),
        size: ResolvedSize::Spec(bv("5000")),
    }));
    assert!(args.contains(&TableArg::Group {
        name: bv("cow_a"),
        size: ResolvedSize::Spec(bv("5000")),
    }));
    assert!(args.contains(&TableArg::Partition {
        name: bv("part_b"),
        size: bv("7000"),
        group: bv("cow_b"),
    }));
    assert!(args.contains(&TableArg::Image { name: bv("part_b") }));
    assert!(args.contains(&TableArg::EmptyPartition {
        name: bv("part_a"),
        group: bv("cow_a"),
    }));
    // The inactive partition gets no image and no full entry.
    assert!(!args.contains(&TableArg::Image { name: bv("part_a") }));
}

#[test]
fn unsupported_slot_count_is_hard_stop() {
    let o = ops(vec![pair("g", "auto")], vec![], vec![], false);
    assert_eq!(
        build_table_args(&info(4, 1000), &o),
        Err(UpdateError::UnsupportedMetadataLayout)
    );
    assert_eq!(
        build_table_args(&info(0, 1000), &o),
        Err(UpdateError::UnsupportedMetadataLayout)
    );
}

#[test]
fn path_selection_follows_wipe_flag_and_groups() {
    let incr = ops(vec![], vec![], vec![pair("p", "1")], false);
    assert!(is_incremental(&incr));
    let with_groups = ops(vec![pair("g", "auto")], vec![], vec![], false);
    assert!(!is_incremental(&with_groups));
    let with_wipe = ops(vec![], vec![], vec![], true);
    assert!(!is_incremental(&with_wipe));
}

#[test]
fn incremental_path_never_calls_the_compiler() {
    let o = ops(
        vec![],
        vec![],
        vec![pair("system_a", "100"), pair("vendor_a", "200")],
        false,
    );
    let plan = incremental_plan(&o);
    assert_eq!(plan.len(), 8);
    for call in &plan {
        assert!(matches!(call, PlannedCall::Tool(_)));
    }
    assert_eq!(
        plan[0],
        PlannedCall::Tool(ToolCmd::Unmap { name: bv("system_a") })
    );
    assert_eq!(
        plan[1],
        PlannedCall::Tool(ToolCmd::Remove { name: bv("system_a") })
    );
    assert_eq!(
        plan[2],
        PlannedCall::Tool(ToolCmd::Create { name: bv("system_a"), size: bv("100") })
    );
    assert_eq!(
        plan[3],
        PlannedCall::Tool(ToolCmd::MapPart { name: bv("system_a") })
    );
}

#[test]
fn full_rebuild_always_calls_the_compiler_once() {
    let o = ops(
        vec![pair("g", "auto")],
        vec![pair("p", "g")],
        vec![pair("p", "64")],
        true,
    );
    let nodes = vec![bv("control"), bv("userdata"), bv("metadata"), bv("old_part")];
    let plan = full_rebuild_plan(&info(2, 4096), &o, &nodes).unwrap();
    let compiles = plan
        .iter()
        .filter(|c| matches!(c, PlannedCall::Compile(_)))
        .count();
    assert_eq!(compiles, 1);
    // The wipe spares the three reserved nodes.
    assert_eq!(plan[0], PlannedCall::Tool(ToolCmd::ClearCow));
    assert_eq!(plan[1], PlannedCall::Tool(ToolCmd::Unmap { name: bv("old_part") }));
    assert_eq!(plan[2], PlannedCall::Tool(ToolCmd::Remove { name: bv("old_part") }));
    assert!(matches!(plan[3], PlannedCall::Compile(_)));
    // After the rebuild every sized partition is mapped.
    assert_eq!(
        plan.last(),
        Some(&PlannedCall::Tool(ToolCmd::MapPart { name: bv("p") }))
    );
}

#[test]
fn rebuild_without_wipe_has_no_cleanup() {
    let o = ops(vec![pair("g", "1000")], vec![], vec![], false);
    let nodes = vec![bv("whatever")];
    let plan = full_rebuild_plan(&info(1, 4096), &o, &nodes).unwrap();
    assert!(matches!(plan[0], PlannedCall::Compile(_)));
}

#[test]
fn virtual_ab_flag_appears_in_args() {
    let mut i = info(2, 4096);
    i.is_virtual_ab = true;
    let o = ops(vec![], vec![], vec![], true);
    let args = build_table_args(&i, &o).unwrap();
    assert!(args.contains(&TableArg::VirtualAb));
    assert!(args.contains(&TableArg::MetadataSize { bytes: 65536 }));
    assert!(args.contains(&TableArg::MetadataSlots { count: 2 }));
    assert!(args.contains(&TableArg::DeviceGeometry { size: 4096, first_sector: 1048576 }));
}
