//! The dynamic-partition manager's planning logic: deciding between
//! the incremental and the full-rebuild path, and constructing the
//! exact sequence of external-tool calls and table-compiler arguments.

use vstd::prelude::*;

use crate::errors::UpdateError;
use crate::oplist::{OpList, OpListView, Pairs, has_key, lookup, alist_get};
use crate::superinfo::SuperLayoutInfo;
use crate::text::{bytes_eq, contains_bytes, contains_seq};
use crate::words::{name_control, name_metadata, name_userdata, sfx_a, sfx_b, word_auto,
    name_control_bytes, name_metadata_bytes, name_userdata_bytes, sfx_a_bytes, sfx_b_bytes,
    word_auto_bytes};

verus! {

/// A group size after resolving the `auto` sentinel.
#[derive(Debug, PartialEq, Eq)]
pub enum ResolvedSize {
    /// `auto` resolved to the host's full device size.
    Bytes(u64),
    /// A literal size specification, passed through as written.
    Spec(Vec<u8>),
}

pub enum ResolvedSizeV {
    Bytes(int),
    Spec(Seq<u8>),
}

impl View for ResolvedSize {
    type V = ResolvedSizeV;

    open spec fn view(&self) -> ResolvedSizeV {
        match self {
            ResolvedSize::Bytes(n) => ResolvedSizeV::Bytes(*n as int),
            ResolvedSize::Spec(s) => ResolvedSizeV::Spec(s@),
        }
    }
}

impl DeepView for ResolvedSize {
    type V = ResolvedSizeV;

    open spec fn deep_view(&self) -> ResolvedSizeV {
        self.view()
    }
}

/// One argument of the table-compiler invocation, in order.
#[derive(Debug, PartialEq, Eq)]
#[allow(inconsistent_fields)]
pub enum TableArg {
    /// Bytes reserved per metadata slot copy.
    MetadataSize { bytes: u64 },
    /// The fixed name of the host partition.
    SuperName,
    /// Number of metadata slot copies.
    MetadataSlots { count: u64 },
    /// Host geometry: total size and first usable offset, in bytes.
    DeviceGeometry { size: u64, first_sector: u64 },
    /// The host uses virtual A/B snapshotting.
    VirtualAb,
    /// One partition group at its resolved size.
    Group { name: Vec<u8>, size: ResolvedSize },
    /// A full partition entry at the given size in its group.
    Partition { name: Vec<u8>, size: Vec<u8>, group: Vec<u8> },
    /// A zero-sized, image-less entry: metadata reserved, no data.
    EmptyPartition { name: Vec<u8>, group: Vec<u8> },
    /// The placeholder image reference for a partition entry.
    Image { name: Vec<u8> },
    /// Write the compiled table to the host partition device.
    Output,
}

#[allow(inconsistent_fields)]
pub enum TableArgV {
    MetadataSize { bytes: int },
    SuperName,
    MetadataSlots { count: int },
    DeviceGeometry { size: int, first_sector: int },
    VirtualAb,
    Group { name: Seq<u8>, size: ResolvedSizeV },
    Partition { name: Seq<u8>, size: Seq<u8>, group: Seq<u8> },
    EmptyPartition { name: Seq<u8>, group: Seq<u8> },
    Image { name: Seq<u8> },
    Output,
}

impl View for TableArg {
    type V = TableArgV;

    open spec fn view(&self) -> TableArgV {
        match self {
            TableArg::MetadataSize { bytes } => TableArgV::MetadataSize { bytes: *bytes as int },
            TableArg::SuperName => TableArgV::SuperName,
            TableArg::MetadataSlots { count } => TableArgV::MetadataSlots { count: *count as int },
            TableArg::DeviceGeometry { size, first_sector } => TableArgV::DeviceGeometry {
                size: *size as int,
                first_sector: *first_sector as int,
            },
            TableArg::VirtualAb => TableArgV::VirtualAb,
            TableArg::Group { name, size } => TableArgV::Group { name: name@, size: size@ },
            TableArg::Partition { name, size, group } => TableArgV::Partition {
                name: name@,
                size: size@,
                group: group@,
            },
            TableArg::EmptyPartition { name, group } => TableArgV::EmptyPartition {
                name: name@,
                group: group@,
            },
            TableArg::Image { name } => TableArgV::Image { name: name@ },
            TableArg::Output => TableArgV::Output,
        }
    }
}

impl DeepView for TableArg {
    type V = TableArgV;

    open spec fn deep_view(&self) -> TableArgV {
        self.view()
    }
}

/// One call of the external partition-table tool.
#[derive(Debug, PartialEq, Eq)]
pub enum ToolCmd {
    Unmap { name: Vec<u8> },
    Remove { name: Vec<u8> },
    Create { name: Vec<u8>, size: Vec<u8> },
    MapPart { name: Vec<u8> },
    ClearCow,
}

pub enum ToolCmdV {
    Unmap { name: Seq<u8> },
    Remove { name: Seq<u8> },
    Create { name: Seq<u8>, size: Seq<u8> },
    MapPart { name: Seq<u8> },
    ClearCow,
}

impl View for ToolCmd {
    type V = ToolCmdV;

    open spec fn view(&self) -> ToolCmdV {
        match self {
            ToolCmd::Unmap { name } => ToolCmdV::Unmap { name: name@ },
            ToolCmd::Remove { name } => ToolCmdV::Remove { name: name@ },
            ToolCmd::Create { name, size } => ToolCmdV::Create { name: name@, size: size@ },
            ToolCmd::MapPart { name } => ToolCmdV::MapPart { name: name@ },
            ToolCmd::ClearCow => ToolCmdV::ClearCow,
        }
    }
}

impl DeepView for ToolCmd {
    type V = ToolCmdV;

    open spec fn deep_view(&self) -> ToolCmdV {
        self.view()
    }
}

/// One planned external call: a best-effort partition-table tool step,
/// or the single mandatory table-compiler invocation.
#[derive(Debug, PartialEq, Eq)]
pub enum PlannedCall {
    Tool(ToolCmd),
    Compile(Vec<TableArg>),
}

pub enum PlannedCallV {
    Tool(ToolCmdV),
    Compile(Seq<TableArgV>),
}

impl View for PlannedCall {
    type V = PlannedCallV;

    open spec fn view(&self) -> PlannedCallV {
        match self {
            PlannedCall::Tool(c) => PlannedCallV::Tool(c@),
            PlannedCall::Compile(args) => PlannedCallV::Compile(args.deep_view()),
        }
    }
}

impl DeepView for PlannedCall {
    type V = PlannedCallV;

    open spec fn deep_view(&self) -> PlannedCallV {
        self.view()
    }
}

/// The incremental path is taken exactly when no full wipe is asked
/// for and the operation list defines no groups.
pub open spec fn spec_is_incremental(ops: OpListView) -> bool {
    !ops.remove_all_groups && ops.groups.len() == 0
}

/// Decides the update path.
pub fn is_incremental(ops: &OpList) -> (r: bool)
    ensures
        r == spec_is_incremental(ops@),
{
    !ops.remove_all_groups && ops.groups.len() == 0
}

/// The incremental path: for every sized partition, in order,
/// best-effort unmap and remove, then create at the given size, then
/// map. No table compiler is involved.
pub open spec fn incremental_plan_of(sizes: Pairs) -> Seq<PlannedCallV>
    decreases sizes.len(),
{
    if sizes.len() == 0 {
        Seq::empty()
    } else {
        let p = sizes[0];
        seq![
            PlannedCallV::Tool(ToolCmdV::Unmap { name: p.0 }),
            PlannedCallV::Tool(ToolCmdV::Remove { name: p.0 }),
            PlannedCallV::Tool(ToolCmdV::Create { name: p.0, size: p.1 }),
            PlannedCallV::Tool(ToolCmdV::MapPart { name: p.0 }),
        ] + incremental_plan_of(sizes.drop_first())
    }
}

/// The incremental path never invokes the table compiler: every one of
/// its planned calls is a best-effort tool step.
pub proof fn lemma_incremental_never_compiles(sizes: Pairs)
    ensures
        forall|i: int|
            0 <= i < incremental_plan_of(sizes).len() ==> (#[trigger] incremental_plan_of(
                sizes,
            )[i]) is Tool,
    decreases sizes.len(),
{
    if sizes.len() > 0 {
        lemma_incremental_never_compiles(sizes.drop_first());
    }
}

fn copy_bytes(src: &Vec<u8>) -> (r: Vec<u8>)
    ensures
        r@ == src@,
{
    vstd::slice::slice_to_vec(src.as_slice())
}

/// Builds the incremental plan.
pub fn incremental_plan(ops: &OpList) -> (r: Vec<PlannedCall>)
    ensures
        r.deep_view() == incremental_plan_of(ops@.sizes),
{
    let ghost d = ops@.sizes;
    let ghost goal = incremental_plan_of(d);
    let mut out: Vec<PlannedCall> = Vec::new();
    let mut i: usize = 0;
    proof {
        assert(out.deep_view() =~= Seq::<PlannedCallV>::empty());
        assert(d.subrange(0, d.len() as int) =~= d);
        assert(Seq::<PlannedCallV>::empty() + goal =~= goal);
    }
    while i < ops.sizes.len()
        invariant
            d == ops@.sizes,
            d.len() == ops.sizes@.len(),
            0 <= i <= ops.sizes@.len(),
            goal == incremental_plan_of(d),
            goal == out.deep_view() + incremental_plan_of(d.subrange(i as int, d.len() as int)),
        decreases ops.sizes@.len() - i,
    {
        let ghost rest = d.subrange(i as int, d.len() as int);
        proof {
            assert(rest[0] == d[i as int]);
            assert(d[i as int] == (ops.sizes@[i as int].0@, ops.sizes@[i as int].1@));
            assert(rest.drop_first() =~= d.subrange(i + 1, d.len() as int));
        }
        let ghost old_out = out.deep_view();
        let p = &ops.sizes[i];
        out.push(PlannedCall::Tool(ToolCmd::Unmap { name: copy_bytes(&p.0) }));
        out.push(PlannedCall::Tool(ToolCmd::Remove { name: copy_bytes(&p.0) }));
        out.push(
            PlannedCall::Tool(
                ToolCmd::Create { name: copy_bytes(&p.0), size: copy_bytes(&p.1) },
            ),
        );
        out.push(PlannedCall::Tool(ToolCmd::MapPart { name: copy_bytes(&p.0) }));
        proof {
            let four = seq![
                PlannedCallV::Tool(ToolCmdV::Unmap { name: d[i as int].0 }),
                PlannedCallV::Tool(ToolCmdV::Remove { name: d[i as int].0 }),
                PlannedCallV::Tool(ToolCmdV::Create { name: d[i as int].0, size: d[i as int].1 }),
                PlannedCallV::Tool(ToolCmdV::MapPart { name: d[i as int].0 }),
            ];
            assert(out.deep_view() =~~= old_out + four);
            assert(old_out + (four + incremental_plan_of(rest.drop_first())) =~= (old_out + four)
                + incremental_plan_of(rest.drop_first()));
        }
        i = i + 1;
    }
    proof {
        assert(d.subrange(d.len() as int, d.len() as int) =~= Seq::<(Seq<u8>, Seq<u8>)>::empty());
        assert(out.deep_view() + incremental_plan_of(Seq::empty()) =~= out.deep_view());
    }
    out
}

/// Resolution of a size specification against the host device size.
pub open spec fn spec_resolve_size(s: Seq<u8>, device_size: int) -> ResolvedSizeV {
    if s == word_auto() {
        ResolvedSizeV::Bytes(device_size)
    } else {
        ResolvedSizeV::Spec(s)
    }
}

/// Resolves the `auto` sentinel to the full device size.
pub fn resolve_size(s: &Vec<u8>, device_size: u64) -> (r: ResolvedSize)
    ensures
        r@ == spec_resolve_size(s@, device_size as int),
{
    let auto = word_auto_bytes();
    if bytes_eq(s.as_slice(), auto.as_slice()) {
        ResolvedSize::Bytes(device_size)
    } else {
        ResolvedSize::Spec(copy_bytes(s))
    }
}

/// One group argument per entry, sizes resolved.
pub open spec fn group_args_of(groups: Pairs, device_size: int) -> Seq<TableArgV> {
    groups.map_values(
        |p: (Seq<u8>, Seq<u8>)|
            TableArgV::Group { name: p.0, size: spec_resolve_size(p.1, device_size) },
    )
}

/// A full entry plus its placeholder image for every partition that
/// has both a group and a size.
pub open spec fn partition_args_of(partitions: Pairs, sizes: Pairs) -> Seq<TableArgV>
    decreases partitions.len(),
{
    if partitions.len() == 0 {
        Seq::empty()
    } else {
        let p = partitions[0];
        let rest = partition_args_of(partitions.drop_first(), sizes);
        if has_key(sizes, p.0) {
            seq![
                TableArgV::Partition { name: p.0, size: lookup(sizes, p.0)->0, group: p.1 },
                TableArgV::Image { name: p.0 },
            ] + rest
        } else {
            rest
        }
    }
}

/// Whether any key of the map contains the needle as a substring.
pub open spec fn any_key_contains(m: Pairs, n: Seq<u8>) -> bool {
    exists|i: int| 0 <= i < m.len() && contains_seq((#[trigger] m[i]).0, n)
}

/// The active slot suffix of a three-slot layout: `_b` when any sized
/// partition name contains it, `_a` otherwise.
pub open spec fn spec_active_suffix(sizes: Pairs) -> Seq<u8> {
    if any_key_contains(sizes, sfx_b()) {
        sfx_b()
    } else {
        sfx_a()
    }
}

/// The inactive counterpart of a slot suffix.
pub open spec fn spec_other_suffix(sfx: Seq<u8>) -> Seq<u8> {
    if sfx == sfx_b() {
        sfx_a()
    } else {
        sfx_b()
    }
}

/// The last group whose name contains the suffix (`want` true), or the
/// last whose name does not (`want` false).
pub open spec fn last_group_matching(groups: Pairs, sfx: Seq<u8>, want: bool) -> Option<
    (Seq<u8>, Seq<u8>),
>
    decreases groups.len(),
{
    if groups.len() == 0 {
        None
    } else if contains_seq(groups.last().0, sfx) == want {
        Some(groups.last())
    } else {
        last_group_matching(groups.drop_last(), sfx, want)
    }
}

/// Full entries plus images for the sized partitions of the active
/// slot.
pub open spec fn active_partition_args_of(partitions: Pairs, sizes: Pairs, slot: Seq<u8>) -> Seq<
    TableArgV,
>
    decreases partitions.len(),
{
    if partitions.len() == 0 {
        Seq::empty()
    } else {
        let p = partitions[0];
        let rest = active_partition_args_of(partitions.drop_first(), sizes, slot);
        if contains_seq(p.0, slot) && has_key(sizes, p.0) {
            seq![
                TableArgV::Partition { name: p.0, size: lookup(sizes, p.0)->0, group: p.1 },
                TableArgV::Image { name: p.0 },
            ] + rest
        } else {
            rest
        }
    }
}

/// Zero-sized, image-less entries for the partitions of the inactive
/// slot: metadata reserved, no data.
pub open spec fn inactive_partition_args_of(partitions: Pairs, empty_slot: Seq<u8>) -> Seq<
    TableArgV,
>
    decreases partitions.len(),
{
    if partitions.len() == 0 {
        Seq::empty()
    } else {
        let p = partitions[0];
        let rest = inactive_partition_args_of(partitions.drop_first(), empty_slot);
        if contains_seq(p.0, empty_slot) {
            seq![TableArgV::EmptyPartition { name: p.0, group: p.1 }] + rest
        } else {
            rest
        }
    }
}

/// The fixed leading arguments: metadata geometry, the host name and
/// geometry, and the virtual A/B flag when the host reports it.
pub open spec fn base_args_of(info: SuperLayoutInfo) -> Seq<TableArgV> {
    seq![
        TableArgV::MetadataSize { bytes: info.metadata_size as int },
        TableArgV::SuperName,
        TableArgV::MetadataSlots { count: info.metadata_slot_count as int },
        TableArgV::DeviceGeometry {
            size: info.device_size as int,
            first_sector: info.first_sector_bytes as int,
        },
    ] + if info.is_virtual_ab {
        seq![TableArgV::VirtualAb]
    } else {
        Seq::<TableArgV>::empty()
    }
}

/// The group arguments of a three-slot layout: the active group's
/// entry, then the inactive group's if one exists.
pub open spec fn split_group_args_of(groups: Pairs, slot: Seq<u8>, device_size: int) -> Seq<
    TableArgV,
> {
    (match last_group_matching(groups, slot, true) {
        None => Seq::<TableArgV>::empty(),
        Some(g) => seq![TableArgV::Group { name: g.0, size: spec_resolve_size(g.1, device_size) }],
    }) + (match last_group_matching(groups, slot, false) {
        None => Seq::<TableArgV>::empty(),
        Some(g) => seq![TableArgV::Group { name: g.0, size: spec_resolve_size(g.1, device_size) }],
    })
}

/// The whole table-compiler argument list. Fails exactly when the
/// metadata slot count is outside 1, 2 and 3.
pub open spec fn spec_table_args(info: SuperLayoutInfo, ops: OpListView) -> Result<
    Seq<TableArgV>,
    UpdateError,
> {
    if info.metadata_slot_count == 1 || info.metadata_slot_count == 2 {
        Ok(
            base_args_of(info) + group_args_of(ops.groups, info.device_size as int)
                + partition_args_of(ops.partitions, ops.sizes) + seq![TableArgV::Output],
        )
    } else if info.metadata_slot_count == 3 {
        let slot = spec_active_suffix(ops.sizes);
        let empty_slot = spec_other_suffix(slot);
        let inactive = last_group_matching(ops.groups, slot, false);
        Ok(
            base_args_of(info) + split_group_args_of(ops.groups, slot, info.device_size as int)
                + active_partition_args_of(ops.partitions, ops.sizes, slot) + (if inactive
                is Some {
                inactive_partition_args_of(ops.partitions, empty_slot)
            } else {
                Seq::<TableArgV>::empty()
            }) + seq![TableArgV::Output],
        )
    } else {
        Err(UpdateError::UnsupportedMetadataLayout)
    }
}

/// Whether any key of the association vector contains the needle.
pub fn any_key_contains_exec(m: &Vec<(Vec<u8>, Vec<u8>)>, n: &[u8]) -> (r: bool)
    ensures
        r == any_key_contains(m.deep_view(), n@),
{
    let ghost d = m.deep_view();
    let mut i: usize = 0;
    while i < m.len()
        invariant
            d == m.deep_view(),
            d.len() == m@.len(),
            0 <= i <= m@.len(),
            forall|j: int| 0 <= j < i ==> !contains_seq((#[trigger] d[j]).0, n@),
        decreases m@.len() - i,
    {
        proof {
            assert(d[i as int] == (m@[i as int].0@, m@[i as int].1@));
        }
        if contains_bytes(m[i].0.as_slice(), n) {
            return true;
        }
        i = i + 1;
    }
    false
}

/// Finds the last group whose name contains the suffix (or does not,
/// with `want` false).
pub fn last_group_matching_exec<'a>(
    groups: &'a Vec<(Vec<u8>, Vec<u8>)>,
    sfx: &[u8],
    want: bool,
) -> (r: Option<&'a (Vec<u8>, Vec<u8>)>)
    ensures
        r matches Some(g) ==> last_group_matching(groups.deep_view(), sfx@, want) == Some(
            (g.0@, g.1@),
        ),
        r is None ==> last_group_matching(groups.deep_view(), sfx@, want) is None,
{
    let ghost d = groups.deep_view();
    let mut j: usize = groups.len();
    proof {
        assert(d.subrange(0, d.len() as int) =~= d);
    }
    while j > 0
        invariant
            d == groups.deep_view(),
            d.len() == groups@.len(),
            0 <= j <= groups@.len(),
            last_group_matching(d, sfx@, want) == last_group_matching(
                d.subrange(0, j as int),
                sfx@,
                want,
            ),
        decreases j,
    {
        let ghost part = d.subrange(0, j as int);
        proof {
            assert(part.last() == d[j - 1]);
            assert(d[j - 1] == (groups@[j - 1].0@, groups@[j - 1].1@));
            assert(part.drop_last() =~= d.subrange(0, j - 1));
        }
        let p = &groups[j - 1];
        if contains_bytes(p.0.as_slice(), sfx) == want {
            return Some(p);
        }
        j = j - 1;
    }
    proof {
        assert(d.subrange(0, 0) =~= Seq::<(Seq<u8>, Seq<u8>)>::empty());
    }
    None
}

/// Appends the group arguments, sizes resolved.
fn push_group_args(out: &mut Vec<TableArg>, groups: &Vec<(Vec<u8>, Vec<u8>)>, device_size: u64)
    ensures
        final(out).deep_view() == old(out).deep_view() + group_args_of(
            groups.deep_view(),
            device_size as int,
        ),
{
    let ghost d = groups.deep_view();
    let ghost base = out.deep_view();
    let mut i: usize = 0;
    proof {
        assert(group_args_of(d.subrange(0, 0), device_size as int) =~= Seq::<TableArgV>::empty());
        assert(base + group_args_of(d.subrange(0, 0), device_size as int) =~= base);
    }
    while i < groups.len()
        invariant
            d == groups.deep_view(),
            d.len() == groups@.len(),
            0 <= i <= groups@.len(),
            out.deep_view() == base + group_args_of(d.subrange(0, i as int), device_size as int),
        decreases groups@.len() - i,
    {
        let ghost old_out = out.deep_view();
        proof {
            assert(d[i as int] == (groups@[i as int].0@, groups@[i as int].1@));
        }
        let p = &groups[i];
        let size = resolve_size(&p.1, device_size);
        out.push(TableArg::Group { name: copy_bytes(&p.0), size });
        proof {
            assert(out.deep_view() =~~= old_out.push(
                TableArgV::Group {
                    name: d[i as int].0,
                    size: spec_resolve_size(d[i as int].1, device_size as int),
                },
            ));
            assert(group_args_of(d.subrange(0, i + 1), device_size as int) =~= group_args_of(
                d.subrange(0, i as int),
                device_size as int,
            ).push(
                TableArgV::Group {
                    name: d[i as int].0,
                    size: spec_resolve_size(d[i as int].1, device_size as int),
                },
            ));
            assert(base + group_args_of(d.subrange(0, i + 1), device_size as int) =~= (base
                + group_args_of(d.subrange(0, i as int), device_size as int)).push(
                TableArgV::Group {
                    name: d[i as int].0,
                    size: spec_resolve_size(d[i as int].1, device_size as int),
                },
            ));
        }
        i = i + 1;
    }
    proof {
        assert(d.subrange(0, d.len() as int) =~= d);
    }
}

/// Appends a full entry plus image for every partition that has both a
/// group and a size; with a slot suffix given, only for partitions of
/// that slot.
fn push_partition_args(
    out: &mut Vec<TableArg>,
    partitions: &Vec<(Vec<u8>, Vec<u8>)>,
    sizes: &Vec<(Vec<u8>, Vec<u8>)>,
    slot: Option<&[u8]>,
)
    ensures
        slot is None ==> final(out).deep_view() == old(out).deep_view() + partition_args_of(
            partitions.deep_view(),
            sizes.deep_view(),
        ),
        slot matches Some(s) ==> final(out).deep_view() == old(out).deep_view()
            + active_partition_args_of(partitions.deep_view(), sizes.deep_view(), s@),
{
    let ghost d = partitions.deep_view();
    let ghost sd = sizes.deep_view();
    let ghost base = out.deep_view();
    let ghost whole = if slot is None {
        partition_args_of(d, sd)
    } else {
        active_partition_args_of(d, sd, slot->0@)
    };
    let mut i: usize = 0;
    proof {
        assert(d.subrange(0, d.len() as int) =~= d);
        assert(base + whole =~= base + whole);
        assert(Seq::<TableArgV>::empty() + whole =~= whole);
    }
    while i < partitions.len()
        invariant
            d == partitions.deep_view(),
            sd == sizes.deep_view(),
            d.len() == partitions@.len(),
            0 <= i <= partitions@.len(),
            whole == (if slot is None {
                partition_args_of(d, sd)
            } else {
                active_partition_args_of(d, sd, slot->0@)
            }),
            base + whole == out.deep_view() + (if slot is None {
                partition_args_of(d.subrange(i as int, d.len() as int), sd)
            } else {
                active_partition_args_of(d.subrange(i as int, d.len() as int), sd, slot->0@)
            }),
        decreases partitions@.len() - i,
    {
        let ghost rest = d.subrange(i as int, d.len() as int);
        proof {
            assert(rest[0] == d[i as int]);
            assert(d[i as int] == (partitions@[i as int].0@, partitions@[i as int].1@));
            assert(rest.drop_first() =~= d.subrange(i + 1, d.len() as int));
        }
        let ghost old_out = out.deep_view();
        let p = &partitions[i];
        let in_slot = match slot {
            None => true,
            Some(s) => contains_bytes(p.0.as_slice(), s),
        };
        if in_slot {
            match alist_get(sizes, p.0.as_slice()) {
                Some(size) => {
                    out.push(
                        TableArg::Partition {
                            name: copy_bytes(&p.0),
                            size: copy_bytes(size),
                            group: copy_bytes(&p.1),
                        },
                    );
                    out.push(TableArg::Image { name: copy_bytes(&p.0) });
                    proof {
                        let two = seq![
                            TableArgV::Partition {
                                name: d[i as int].0,
                                size: lookup(sd, d[i as int].0)->0,
                                group: d[i as int].1,
                            },
                            TableArgV::Image { name: d[i as int].0 },
                        ];
                        assert(out.deep_view() =~~= old_out + two);
                        if slot is None {
                            assert(old_out + (two + partition_args_of(rest.drop_first(), sd))
                                =~= (old_out + two) + partition_args_of(rest.drop_first(), sd));
                        } else {
                            assert(old_out + (two + active_partition_args_of(
                                rest.drop_first(),
                                sd,
                                slot->0@,
                            )) =~= (old_out + two) + active_partition_args_of(
                                rest.drop_first(),
                                sd,
                                slot->0@,
                            ));
                        }
                    }
                },
                None => {},
            }
        }
        i = i + 1;
    }
    proof {
        assert(d.subrange(d.len() as int, d.len() as int) =~= Seq::<(Seq<u8>, Seq<u8>)>::empty());
        assert(out.deep_view() + Seq::<TableArgV>::empty() =~= out.deep_view());
    }
}

/// Appends the zero-sized entries for the partitions of the inactive
/// slot.
fn push_inactive_partition_args(
    out: &mut Vec<TableArg>,
    partitions: &Vec<(Vec<u8>, Vec<u8>)>,
    empty_slot: &[u8],
)
    ensures
        final(out).deep_view() == old(out).deep_view() + inactive_partition_args_of(
            partitions.deep_view(),
            empty_slot@,
        ),
{
    let ghost d = partitions.deep_view();
    let ghost base = out.deep_view();
    let ghost whole = inactive_partition_args_of(d, empty_slot@);
    let mut i: usize = 0;
    proof {
        assert(d.subrange(0, d.len() as int) =~= d);
        assert(Seq::<TableArgV>::empty() + whole =~= whole);
    }
    while i < partitions.len()
        invariant
            d == partitions.deep_view(),
            d.len() == partitions@.len(),
            0 <= i <= partitions@.len(),
            whole == inactive_partition_args_of(d, empty_slot@),
            base + whole == out.deep_view() + inactive_partition_args_of(
                d.subrange(i as int, d.len() as int),
                empty_slot@,
            ),
        decreases partitions@.len() - i,
    {
        let ghost rest = d.subrange(i as int, d.len() as int);
        proof {
            assert(rest[0] == d[i as int]);
            assert(d[i as int] == (partitions@[i as int].0@, partitions@[i as int].1@));
            assert(rest.drop_first() =~= d.subrange(i + 1, d.len() as int));
        }
        let ghost old_out = out.deep_view();
        let p = &partitions[i];
        if contains_bytes(p.0.as_slice(), empty_slot) {
            out.push(
                TableArg::EmptyPartition { name: copy_bytes(&p.0), group: copy_bytes(&p.1) },
            );
            proof {
                let one = seq![
                    TableArgV::EmptyPartition { name: d[i as int].0, group: d[i as int].1 },
                ];
                assert(out.deep_view() =~~= old_out + one);
                assert(old_out + (one + inactive_partition_args_of(rest.drop_first(), empty_slot@))
                    =~= (old_out + one) + inactive_partition_args_of(
                    rest.drop_first(),
                    empty_slot@,
                ));
            }
        }
        i = i + 1;
    }
    proof {
        assert(d.subrange(d.len() as int, d.len() as int) =~= Seq::<(Seq<u8>, Seq<u8>)>::empty());
        assert(out.deep_view() + Seq::<TableArgV>::empty() =~= out.deep_view());
    }
}

/// Constructs the table-compiler argument list for a full rebuild:
/// fixed geometry first, then groups and partitions as the slot count
/// dictates, the output target last. Fails with
/// `UnsupportedMetadataLayout` exactly when the slot count is outside
/// 1, 2 and 3.
pub fn build_table_args(info: &SuperLayoutInfo, ops: &OpList) -> (r: Result<
    Vec<TableArg>,
    UpdateError,
>)
    ensures
        (r is Ok) == (spec_table_args(*info, ops@) is Ok),
        r matches Ok(args) ==> Ok::<Seq<TableArgV>, UpdateError>(args.deep_view())
            == spec_table_args(*info, ops@),
        r matches Err(e) ==> e == UpdateError::UnsupportedMetadataLayout && spec_table_args(
            *info,
            ops@,
        ) == Err::<Seq<TableArgV>, UpdateError>(e),
{
    if info.metadata_slot_count != 1 && info.metadata_slot_count != 2
        && info.metadata_slot_count != 3 {
        return Err(UpdateError::UnsupportedMetadataLayout);
    }
    let mut out: Vec<TableArg> = Vec::new();
    out.push(TableArg::MetadataSize { bytes: info.metadata_size });
    out.push(TableArg::SuperName);
    out.push(TableArg::MetadataSlots { count: info.metadata_slot_count });
    out.push(
        TableArg::DeviceGeometry {
            size: info.device_size,
            first_sector: info.first_sector_bytes,
        },
    );
    if info.is_virtual_ab {
        out.push(TableArg::VirtualAb);
    }
    proof {
        assert(out.deep_view() =~~= base_args_of(*info));
    }
    if info.metadata_slot_count == 1 || info.metadata_slot_count == 2 {
        push_group_args(&mut out, &ops.groups, info.device_size);
        push_partition_args(&mut out, &ops.partitions, &ops.sizes, None);
        let ghost before_output = out.deep_view();
        out.push(TableArg::Output);
        proof {
            assert(out.deep_view() =~~= before_output + seq![TableArgV::Output]);
            assert(out.deep_view() =~= base_args_of(*info) + group_args_of(
                ops@.groups,
                info.device_size as int,
            ) + partition_args_of(ops@.partitions, ops@.sizes) + seq![TableArgV::Output]);
        }
        Ok(out)
    } else {
        let slot_is_b = any_key_contains_exec(&ops.sizes, sfx_b_bytes().as_slice());
        let slot = if slot_is_b {
            sfx_b_bytes()
        } else {
            sfx_a_bytes()
        };
        let empty_slot = if slot_is_b {
            sfx_a_bytes()
        } else {
            sfx_b_bytes()
        };
        proof {
            assert(slot@ == spec_active_suffix(ops@.sizes));
            assert(empty_slot@ == spec_other_suffix(slot@)) by {
                if slot_is_b {
                } else {
                    assert(sfx_a()[1] != sfx_b()[1]);
                    assert(sfx_a() != sfx_b());
                }
            }
        }
        let mut has_inactive: bool = false;
        match last_group_matching_exec(&ops.groups, slot.as_slice(), true) {
            Some(g) => {
                let size = resolve_size(&g.1, info.device_size);
                out.push(TableArg::Group { name: copy_bytes(&g.0), size });
            },
            None => {},
        }
        match last_group_matching_exec(&ops.groups, slot.as_slice(), false) {
            Some(g) => {
                let size = resolve_size(&g.1, info.device_size);
                out.push(TableArg::Group { name: copy_bytes(&g.0), size });
                has_inactive = true;
            },
            None => {},
        }
        proof {
            assert(out.deep_view() =~~= base_args_of(*info) + split_group_args_of(
                ops@.groups,
                slot@,
                info.device_size as int,
            ));
            assert(has_inactive == (last_group_matching(ops@.groups, slot@, false) is Some));
        }
        push_partition_args(&mut out, &ops.partitions, &ops.sizes, Some(slot.as_slice()));
        if has_inactive {
            push_inactive_partition_args(&mut out, &ops.partitions, empty_slot.as_slice());
        }
        let ghost before_output = out.deep_view();
        out.push(TableArg::Output);
        proof {
            assert(out.deep_view() =~~= before_output + seq![TableArgV::Output]);
            let inactive = last_group_matching(ops@.groups, slot@, false);
            assert(out.deep_view() =~= base_args_of(*info) + split_group_args_of(
                ops@.groups,
                slot@,
                info.device_size as int,
            ) + active_partition_args_of(ops@.partitions, ops@.sizes, slot@) + (if inactive
                is Some {
                inactive_partition_args_of(ops@.partitions, spec_other_suffix(slot@))
            } else {
                Seq::<TableArgV>::empty()
            }) + seq![TableArgV::Output]);
        }
        Ok(out)
    }
}

/// The cleanup calls of a full wipe: clear the copy-on-write state,
/// then best-effort unmap and remove every existing device node except
/// the three reserved control nodes.
pub open spec fn node_cleanup_calls(nodes: Seq<Seq<u8>>) -> Seq<PlannedCallV>
    decreases nodes.len(),
{
    if nodes.len() == 0 {
        Seq::empty()
    } else {
        let n = nodes[0];
        let rest = node_cleanup_calls(nodes.drop_first());
        if n == name_control() || n == name_userdata() || n == name_metadata() {
            rest
        } else {
            seq![
                PlannedCallV::Tool(ToolCmdV::Unmap { name: n }),
                PlannedCallV::Tool(ToolCmdV::Remove { name: n }),
            ] + rest
        }
    }
}

pub open spec fn cleanup_calls(remove_all: bool, nodes: Seq<Seq<u8>>) -> Seq<PlannedCallV> {
    if remove_all {
        seq![PlannedCallV::Tool(ToolCmdV::ClearCow)] + node_cleanup_calls(nodes)
    } else {
        Seq::empty()
    }
}

/// After a successful rebuild, every sized partition is best-effort
/// mapped.
pub open spec fn map_calls_of(sizes: Pairs) -> Seq<PlannedCallV> {
    sizes.map_values(|p: (Seq<u8>, Seq<u8>)| PlannedCallV::Tool(ToolCmdV::MapPart { name: p.0 }))
}

/// The full-rebuild path: optional wipe, one table-compiler
/// invocation, then the map calls.
pub open spec fn spec_full_plan(
    info: SuperLayoutInfo,
    ops: OpListView,
    nodes: Seq<Seq<u8>>,
) -> Result<Seq<PlannedCallV>, UpdateError> {
    match spec_table_args(info, ops) {
        Err(e) => Err(e),
        Ok(args) => Ok(
            cleanup_calls(ops.remove_all_groups, nodes) + seq![PlannedCallV::Compile(args)]
                + map_calls_of(ops.sizes),
        ),
    }
}

/// The full-rebuild path always invokes the table compiler: one of its
/// planned calls is the compiler invocation.
pub proof fn lemma_full_rebuild_compiles(
    info: SuperLayoutInfo,
    ops: OpListView,
    nodes: Seq<Seq<u8>>,
)
    requires
        spec_full_plan(info, ops, nodes) is Ok,
    ensures
        exists|i: int|
            0 <= i < spec_full_plan(info, ops, nodes)->Ok_0.len() && (#[trigger] spec_full_plan(
                info,
                ops,
                nodes,
            )->Ok_0[i]) is Compile,
{
    let args = spec_table_args(info, ops)->Ok_0;
    let plan = spec_full_plan(info, ops, nodes)->Ok_0;
    let c = cleanup_calls(ops.remove_all_groups, nodes);
    let idx = c.len() as int;
    assert(plan[idx] == PlannedCallV::Compile(args));
}

/// Builds the node-cleanup calls of a full wipe.
fn push_cleanup_calls(out: &mut Vec<PlannedCall>, remove_all: bool, nodes: &Vec<Vec<u8>>)
    ensures
        final(out).deep_view() == old(out).deep_view() + cleanup_calls(
            remove_all,
            nodes.deep_view(),
        ),
{
    if !remove_all {
        proof {
            assert(old(out).deep_view() + cleanup_calls(false, nodes.deep_view())
                =~= old(out).deep_view());
        }
        return ;
    }
    let ghost d = nodes.deep_view();
    let ghost base = out.deep_view();
    let ghost whole = cleanup_calls(true, d);
    out.push(PlannedCall::Tool(ToolCmd::ClearCow));
    proof {
        assert(out.deep_view() =~~= base.push(PlannedCallV::Tool(ToolCmdV::ClearCow)));
        assert(base.push(PlannedCallV::Tool(ToolCmdV::ClearCow)) + node_cleanup_calls(d)
            =~= base + whole);
        assert(d.subrange(0, d.len() as int) =~= d);
    }
    let control = name_control_bytes();
    let userdata = name_userdata_bytes();
    let metadata = name_metadata_bytes();
    let mut i: usize = 0;
    while i < nodes.len()
        invariant
            d == nodes.deep_view(),
            d.len() == nodes@.len(),
            0 <= i <= nodes@.len(),
            control@ == name_control(),
            userdata@ == name_userdata(),
            metadata@ == name_metadata(),
            base + whole == out.deep_view() + node_cleanup_calls(
                d.subrange(i as int, d.len() as int),
            ),
        decreases nodes@.len() - i,
    {
        let ghost rest = d.subrange(i as int, d.len() as int);
        proof {
            assert(rest[0] == d[i as int]);
            assert(d[i as int] == nodes@[i as int]@);
            assert(rest.drop_first() =~= d.subrange(i + 1, d.len() as int));
        }
        let ghost old_out = out.deep_view();
        let n = &nodes[i];
        let reserved = bytes_eq(n.as_slice(), control.as_slice()) || bytes_eq(
            n.as_slice(),
            userdata.as_slice(),
        ) || bytes_eq(n.as_slice(), metadata.as_slice());
        if !reserved {
            out.push(PlannedCall::Tool(ToolCmd::Unmap { name: copy_bytes(n) }));
            out.push(PlannedCall::Tool(ToolCmd::Remove { name: copy_bytes(n) }));
            proof {
                let two = seq![
                    PlannedCallV::Tool(ToolCmdV::Unmap { name: d[i as int] }),
                    PlannedCallV::Tool(ToolCmdV::Remove { name: d[i as int] }),
                ];
                assert(out.deep_view() =~~= old_out + two);
                assert(old_out + (two + node_cleanup_calls(rest.drop_first())) =~= (old_out + two)
                    + node_cleanup_calls(rest.drop_first()));
            }
        }
        i = i + 1;
    }
    proof {
        assert(d.subrange(d.len() as int, d.len() as int) =~= Seq::<Seq<u8>>::empty());
        assert(out.deep_view() + Seq::<PlannedCallV>::empty() =~= out.deep_view());
    }
}

/// Builds the whole full-rebuild plan: cleanup when a wipe is asked
/// for, the single compiler invocation, then the map calls.
pub fn full_rebuild_plan(info: &SuperLayoutInfo, ops: &OpList, nodes: &Vec<Vec<u8>>) -> (r: Result<
    Vec<PlannedCall>,
    UpdateError,
>)
    ensures
        (r is Ok) == (spec_full_plan(*info, ops@, nodes.deep_view()) is Ok),
        r matches Ok(p) ==> Ok::<Seq<PlannedCallV>, UpdateError>(p.deep_view()) == spec_full_plan(
            *info,
            ops@,
            nodes.deep_view(),
        ),
        r matches Err(e) ==> Err::<Seq<PlannedCallV>, UpdateError>(e) == spec_full_plan(
            *info,
            ops@,
            nodes.deep_view(),
        ),
{
    let args = match build_table_args(info, ops) {
        Ok(a) => a,
        Err(e) => {
            return Err(e);
        },
    };
    let ghost argsv = args.deep_view();
    let mut out: Vec<PlannedCall> = Vec::new();
    proof {
        assert(out.deep_view() =~= Seq::<PlannedCallV>::empty());
        assert(Seq::<PlannedCallV>::empty() + cleanup_calls(
            ops@.remove_all_groups,
            nodes.deep_view(),
        ) =~= cleanup_calls(ops@.remove_all_groups, nodes.deep_view()));
    }
    push_cleanup_calls(&mut out, ops.remove_all_groups, nodes);
    let ghost after_cleanup = out.deep_view();
    out.push(PlannedCall::Compile(args));
    proof {
        assert(out.deep_view() =~~= after_cleanup + seq![PlannedCallV::Compile(argsv)]);
    }
    let ghost after_compile = out.deep_view();
    let ghost sd = ops@.sizes;
    let mut i: usize = 0;
    proof {
        assert(map_calls_of(sd.subrange(0, 0)) =~= Seq::<PlannedCallV>::empty());
        assert(after_compile + map_calls_of(sd.subrange(0, 0)) =~= after_compile);
    }
    while i < ops.sizes.len()
        invariant
            sd == ops@.sizes,
            sd.len() == ops.sizes@.len(),
            0 <= i <= ops.sizes@.len(),
            after_compile == after_compile,
            out.deep_view() == after_compile + map_calls_of(sd.subrange(0, i as int)),
        decreases ops.sizes@.len() - i,
    {
        let ghost old_out = out.deep_view();
        proof {
            assert(sd[i as int] == (ops.sizes@[i as int].0@, ops.sizes@[i as int].1@));
        }
        let p = &ops.sizes[i];
        out.push(PlannedCall::Tool(ToolCmd::MapPart { name: copy_bytes(&p.0) }));
        proof {
            let one = PlannedCallV::Tool(ToolCmdV::MapPart { name: sd[i as int].0 });
            assert(out.deep_view() =~~= old_out.push(one));
            assert(map_calls_of(sd.subrange(0, i + 1)) =~= map_calls_of(
                sd.subrange(0, i as int),
            ).push(one));
            assert(after_compile + map_calls_of(sd.subrange(0, i + 1)) =~= (after_compile
                + map_calls_of(sd.subrange(0, i as int))).push(one));
        }
        i = i + 1;
    }
    proof {
        assert(sd.subrange(0, sd.len() as int) =~= sd);
        assert(out.deep_view() =~= cleanup_calls(ops@.remove_all_groups, nodes.deep_view())
            + seq![PlannedCallV::Compile(argsv)] + map_calls_of(sd));
    }
    Ok(out)
}

} // verus!
