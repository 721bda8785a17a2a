//! The partition operation list: the declarative plan for one update,
//! parsed from a line-oriented resource, and its expansion against the
//! device's active slot suffix.

use vstd::prelude::*;

use crate::text::{before_comment, before_comment_bytes, bytes_eq, lines_of, split_lines, tokenize,
    tokens, concat_bytes};
use crate::words::{kw_add, kw_add_group, kw_auto_detect, kw_remove_all, kw_resize, kw_add_bytes,
    kw_add_group_bytes, kw_auto_detect_bytes, kw_remove_all_bytes, kw_resize_bytes};

verus! {

/// Association list of byte-string keys to byte-string values, the
/// model of the name-keyed maps of the operation list. Directives are
/// applied in order, a repeated key replaces the value in place.
pub type Pairs = Seq<(Seq<u8>, Seq<u8>)>;

/// The value bound to the first occurrence of a key.
pub open spec fn lookup(m: Pairs, k: Seq<u8>) -> Option<Seq<u8>>
    decreases m.len(),
{
    if m.len() == 0 {
        None
    } else if m[0].0 == k {
        Some(m[0].1)
    } else {
        lookup(m.drop_first(), k)
    }
}

pub open spec fn has_key(m: Pairs, k: Seq<u8>) -> bool {
    lookup(m, k) is Some
}

/// Binds a key, replacing the value in place if the key is present,
/// appending the pair otherwise.
pub open spec fn alist_put(m: Pairs, k: Seq<u8>, v: Seq<u8>) -> Pairs
    decreases m.len(),
{
    if m.len() == 0 {
        seq![(k, v)]
    } else if m[0].0 == k {
        seq![(k, v)] + m.drop_first()
    } else {
        seq![m[0]] + alist_put(m.drop_first(), k, v)
    }
}

/// Looks a key up in an association vector.
pub fn alist_get<'a>(m: &'a Vec<(Vec<u8>, Vec<u8>)>, k: &[u8]) -> (r: Option<&'a Vec<u8>>)
    ensures
        r matches Some(v) ==> lookup(m.deep_view(), k@) == Some(v@),
        r is None ==> lookup(m.deep_view(), k@) is None,
{
    let ghost d = m.deep_view();
    let mut i: usize = 0;
    proof {
        assert(d.subrange(0, d.len() as int) =~= d);
    }
    while i < m.len()
        invariant
            d == m.deep_view(),
            d.len() == m@.len(),
            0 <= i <= m@.len(),
            lookup(d, k@) == lookup(d.subrange(i as int, d.len() as int), k@),
        decreases m@.len() - i,
    {
        let ghost rest = d.subrange(i as int, d.len() as int);
        proof {
            assert(rest[0] == d[i as int]);
            assert(d[i as int] == (m@[i as int].0@, m@[i as int].1@));
            assert(rest.drop_first() =~= d.subrange(i + 1, d.len() as int));
        }
        let p = &m[i];
        if bytes_eq(p.0.as_slice(), k) {
            return Some(&p.1);
        }
        i = i + 1;
    }
    None
}

/// Whether a key is bound in an association vector.
pub fn alist_has(m: &Vec<(Vec<u8>, Vec<u8>)>, k: &[u8]) -> (r: bool)
    ensures
        r == has_key(m.deep_view(), k@),
{
    match alist_get(m, k) {
        Some(_) => true,
        None => false,
    }
}

/// Builds a new association vector with the key bound to the value.
pub fn alist_put_vec(m: &Vec<(Vec<u8>, Vec<u8>)>, k: &[u8], v: &[u8]) -> (r: Vec<
    (Vec<u8>, Vec<u8>),
>)
    ensures
        r.deep_view() == alist_put(m.deep_view(), k@, v@),
{
    let ghost d = m.deep_view();
    let ghost goal = alist_put(d, k@, v@);
    let mut out: Vec<(Vec<u8>, Vec<u8>)> = Vec::new();
    let mut found: bool = false;
    let mut i: usize = 0;
    proof {
        assert(d.subrange(0, d.len() as int) =~= d);
        assert(out.deep_view() =~= Seq::<(Seq<u8>, Seq<u8>)>::empty());
        assert(Seq::<(Seq<u8>, Seq<u8>)>::empty() + goal =~= goal);
    }
    while i < m.len()
        invariant
            d == m.deep_view(),
            d.len() == m@.len(),
            0 <= i <= m@.len(),
            goal == alist_put(d, k@, v@),
            !found ==> goal == out.deep_view() + alist_put(
                d.subrange(i as int, d.len() as int),
                k@,
                v@,
            ),
            found ==> goal == out.deep_view() + d.subrange(i as int, d.len() as int),
        decreases m@.len() - i,
    {
        let ghost rest = d.subrange(i as int, d.len() as int);
        proof {
            assert(rest[0] == d[i as int]);
            assert(d[i as int] == (m@[i as int].0@, m@[i as int].1@));
            assert(rest.drop_first() =~= d.subrange(i + 1, d.len() as int));
        }
        let ghost old_out = out.deep_view();
        let p = &m[i];
        if !found && bytes_eq(p.0.as_slice(), k) {
            out.push((vstd::slice::slice_to_vec(k), vstd::slice::slice_to_vec(v)));
            found = true;
            proof {
                assert(out.deep_view() =~~= old_out.push((k@, v@)));
                assert(old_out + (seq![(k@, v@)] + rest.drop_first()) =~= old_out.push((k@, v@))
                    + rest.drop_first());
            }
        } else {
            out.push(
                (vstd::slice::slice_to_vec(p.0.as_slice()), vstd::slice::slice_to_vec(
                    p.1.as_slice(),
                )),
            );
            proof {
                assert(out.deep_view() =~~= old_out.push(d[i as int]));
                if found {
                    assert(old_out + rest =~= old_out.push(d[i as int]) + rest.drop_first());
                } else {
                    assert(old_out + (seq![d[i as int]] + alist_put(rest.drop_first(), k@, v@))
                        =~= old_out.push(d[i as int]) + alist_put(rest.drop_first(), k@, v@));
                }
            }
        }
        i = i + 1;
    }
    proof {
        assert(d.subrange(d.len() as int, d.len() as int) =~= Seq::<(Seq<u8>, Seq<u8>)>::empty());
    }
    if !found {
        let ghost old_out = out.deep_view();
        out.push((vstd::slice::slice_to_vec(k), vstd::slice::slice_to_vec(v)));
        proof {
            assert(out.deep_view() =~~= old_out.push((k@, v@)));
            assert(old_out + seq![(k@, v@)] =~= old_out.push((k@, v@)));
        }
    } else {
        proof {
            assert(out.deep_view() + Seq::<(Seq<u8>, Seq<u8>)>::empty() =~= out.deep_view());
        }
    }
    out
}

/// The declarative plan for one update.
#[derive(Debug, PartialEq, Eq)]
pub struct OpList {
    /// Group name to size specification (a byte count, or `auto`).
    pub groups: Vec<(Vec<u8>, Vec<u8>)>,
    /// Partition name to owning group name.
    pub partitions: Vec<(Vec<u8>, Vec<u8>)>,
    /// Partition name to size specification, for partitions being
    /// created or resized.
    pub sizes: Vec<(Vec<u8>, Vec<u8>)>,
    /// Wipe the existing dynamic layout before rebuilding.
    pub remove_all_groups: bool,
    /// Expand all names against the device's active slot before use.
    pub auto_detect_active_slot: bool,
}

pub struct OpListView {
    pub groups: Pairs,
    pub partitions: Pairs,
    pub sizes: Pairs,
    pub remove_all_groups: bool,
    pub auto_detect_active_slot: bool,
}

impl View for OpList {
    type V = OpListView;

    open spec fn view(&self) -> OpListView {
        OpListView {
            groups: self.groups.deep_view(),
            partitions: self.partitions.deep_view(),
            sizes: self.sizes.deep_view(),
            remove_all_groups: self.remove_all_groups,
            auto_detect_active_slot: self.auto_detect_active_slot,
        }
    }
}

pub open spec fn empty_ops() -> OpListView {
    OpListView {
        groups: Seq::empty(),
        partitions: Seq::empty(),
        sizes: Seq::empty(),
        remove_all_groups: false,
        auto_detect_active_slot: false,
    }
}

/// The effect of one line on the accumulated operation list: the part
/// before any comment mark is split into tokens; a known directive
/// with enough arguments applies, anything else leaves the list
/// unchanged.
pub open spec fn apply_directive(st: OpListView, line: Seq<u8>) -> OpListView {
    let ts = tokens(before_comment(line));
    if ts.len() == 0 {
        st
    } else if ts[0] == kw_auto_detect() {
        OpListView { auto_detect_active_slot: true, ..st }
    } else if ts[0] == kw_remove_all() {
        OpListView { remove_all_groups: true, ..st }
    } else if ts[0] == kw_add_group() && ts.len() >= 3 {
        OpListView { groups: alist_put(st.groups, ts[1], ts[2]), ..st }
    } else if ts[0] == kw_add() && ts.len() >= 3 {
        OpListView { partitions: alist_put(st.partitions, ts[1], ts[2]), ..st }
    } else if ts[0] == kw_resize() && ts.len() >= 3 {
        OpListView { sizes: alist_put(st.sizes, ts[1], ts[2]), ..st }
    } else {
        st
    }
}

pub open spec fn apply_directives(st: OpListView, ls: Seq<Seq<u8>>) -> OpListView
    decreases ls.len(),
{
    if ls.len() == 0 {
        st
    } else {
        apply_directives(apply_directive(st, ls[0]), ls.drop_first())
    }
}

/// The operation list a byte stream denotes: its lines applied in
/// order to the empty list.
pub open spec fn spec_parse_op_list(data: Seq<u8>) -> OpListView {
    apply_directives(empty_ops(), lines_of(data))
}

/// Applies one line to the accumulated operation list.
fn apply_directive_exec(st: OpList, line: &[u8]) -> (r: OpList)
    ensures
        r@ == apply_directive(st@, line@),
{
    let body = before_comment_bytes(line);
    let toks = tokenize(body);
    let ghost ts = tokens(before_comment(line@));
    proof {
        assert(toks.deep_view() == ts);
    }
    if toks.len() == 0 {
        return st;
    }
    proof {
        assert(toks.deep_view()[0] == toks@[0]@);
    }
    let t0 = &toks[0];
    if bytes_eq(t0.as_slice(), kw_auto_detect_bytes().as_slice()) {
        return OpList { auto_detect_active_slot: true, ..st };
    }
    if bytes_eq(t0.as_slice(), kw_remove_all_bytes().as_slice()) {
        return OpList { remove_all_groups: true, ..st };
    }
    if toks.len() >= 3 {
        proof {
            assert(toks.deep_view()[1] == toks@[1]@);
            assert(toks.deep_view()[2] == toks@[2]@);
        }
        if bytes_eq(t0.as_slice(), kw_add_group_bytes().as_slice()) {
            let g = alist_put_vec(&st.groups, toks[1].as_slice(), toks[2].as_slice());
            return OpList { groups: g, ..st };
        }
        if bytes_eq(t0.as_slice(), kw_add_bytes().as_slice()) {
            let p = alist_put_vec(&st.partitions, toks[1].as_slice(), toks[2].as_slice());
            return OpList { partitions: p, ..st };
        }
        if bytes_eq(t0.as_slice(), kw_resize_bytes().as_slice()) {
            let s = alist_put_vec(&st.sizes, toks[1].as_slice(), toks[2].as_slice());
            return OpList { sizes: s, ..st };
        }
        return st;
    }
    st
}

/// Parses a partition operation list: `#` starts a comment, blank
/// lines and unrecognized or short directives are ignored; `add_group`,
/// `add` and `resize` bind names in order, later lines replacing
/// earlier values; `remove_all_groups` and `auto_detect_active_slot`
/// set their flags.
pub fn parse_op_list(data: &[u8]) -> (r: OpList)
    ensures
        r@ == spec_parse_op_list(data@),
{
    let ls = split_lines(data);
    let ghost lsv = lines_of(data@);
    let mut st = OpList {
        groups: Vec::new(),
        partitions: Vec::new(),
        sizes: Vec::new(),
        remove_all_groups: false,
        auto_detect_active_slot: false,
    };
    proof {
        assert(st@.groups =~= Seq::<(Seq<u8>, Seq<u8>)>::empty());
        assert(st@.partitions =~= Seq::<(Seq<u8>, Seq<u8>)>::empty());
        assert(st@.sizes =~= Seq::<(Seq<u8>, Seq<u8>)>::empty());
        assert(st@ == empty_ops());
        assert(lsv.subrange(0, lsv.len() as int) =~= lsv);
    }
    let mut i: usize = 0;
    while i < ls.len()
        invariant
            lsv == lines_of(data@),
            ls.deep_view() == lsv,
            lsv.len() == ls@.len(),
            0 <= i <= ls@.len(),
            spec_parse_op_list(data@) == apply_directives(
                st@,
                lsv.subrange(i as int, lsv.len() as int),
            ),
        decreases ls@.len() - i,
    {
        let ghost rest = lsv.subrange(i as int, lsv.len() as int);
        proof {
            assert(rest[0] == lsv[i as int]);
            assert(lsv[i as int] == ls@[i as int]@);
            assert(rest.drop_first() =~= lsv.subrange(i + 1, lsv.len() as int));
        }
        let line = &ls[i];
        st = apply_directive_exec(st, line.as_slice());
        i = i + 1;
    }
    proof {
        assert(lsv.subrange(lsv.len() as int, lsv.len() as int) =~= Seq::<Seq<u8>>::empty());
    }
    st
}

/// All keys suffixed, values kept.
pub open spec fn suffixed_keys(m: Pairs, sfx: Seq<u8>) -> Pairs {
    m.map_values(|p: (Seq<u8>, Seq<u8>)| (p.0 + sfx, p.1))
}

/// Keys and values both suffixed.
pub open spec fn suffixed_both(m: Pairs, sfx: Seq<u8>) -> Pairs {
    m.map_values(|p: (Seq<u8>, Seq<u8>)| (p.0 + sfx, p.1 + sfx))
}

/// Slot expansion: with an empty suffix (a single-slot device) the
/// list is unchanged; otherwise every partition and group base name
/// has the active suffix appended, and only the suffixed names are
/// kept. Partition entries also rename the group they point at; size
/// values are byte counts and stay as they are.
pub open spec fn spec_expand(st: OpListView, sfx: Seq<u8>) -> OpListView {
    if sfx.len() == 0 {
        st
    } else {
        OpListView {
            groups: suffixed_keys(st.groups, sfx),
            partitions: suffixed_both(st.partitions, sfx),
            sizes: suffixed_keys(st.sizes, sfx),
            remove_all_groups: st.remove_all_groups,
            auto_detect_active_slot: st.auto_detect_active_slot,
        }
    }
}

fn suffix_pairs(m: &Vec<(Vec<u8>, Vec<u8>)>, sfx: &[u8], both: bool) -> (r: Vec<(Vec<u8>, Vec<u8>)>)
    ensures
        both ==> r.deep_view() == suffixed_both(m.deep_view(), sfx@),
        !both ==> r.deep_view() == suffixed_keys(m.deep_view(), sfx@),
{
    let ghost d = m.deep_view();
    let mut out: Vec<(Vec<u8>, Vec<u8>)> = Vec::new();
    let mut i: usize = 0;
    proof {
        assert(out.deep_view() =~= Seq::<(Seq<u8>, Seq<u8>)>::empty());
        assert(suffixed_both(d.subrange(0, 0), sfx@) =~= Seq::<(Seq<u8>, Seq<u8>)>::empty());
        assert(suffixed_keys(d.subrange(0, 0), sfx@) =~= Seq::<(Seq<u8>, Seq<u8>)>::empty());
    }
    while i < m.len()
        invariant
            d == m.deep_view(),
            d.len() == m@.len(),
            0 <= i <= m@.len(),
            both ==> out.deep_view() == suffixed_both(d.subrange(0, i as int), sfx@),
            !both ==> out.deep_view() == suffixed_keys(d.subrange(0, i as int), sfx@),
        decreases m@.len() - i,
    {
        let ghost old_out = out.deep_view();
        proof {
            assert(d[i as int] == (m@[i as int].0@, m@[i as int].1@));
        }
        let p = &m[i];
        let nk = concat_bytes(p.0.as_slice(), sfx);
        let nv = if both {
            concat_bytes(p.1.as_slice(), sfx)
        } else {
            vstd::slice::slice_to_vec(p.1.as_slice())
        };
        out.push((nk, nv));
        proof {
            if both {
                assert(out.deep_view() =~~= old_out.push((d[i as int].0 + sfx@, d[i as int].1 + sfx@)));
                assert(suffixed_both(d.subrange(0, i + 1), sfx@) =~= suffixed_both(
                    d.subrange(0, i as int),
                    sfx@,
                ).push((d[i as int].0 + sfx@, d[i as int].1 + sfx@)));
            } else {
                assert(out.deep_view() =~~= old_out.push((d[i as int].0 + sfx@, d[i as int].1)));
                assert(suffixed_keys(d.subrange(0, i + 1), sfx@) =~= suffixed_keys(
                    d.subrange(0, i as int),
                    sfx@,
                ).push((d[i as int].0 + sfx@, d[i as int].1)));
            }
        }
        i = i + 1;
    }
    proof {
        assert(d.subrange(0, d.len() as int) =~= d);
    }
    out
}

/// Expands an operation list against the active slot suffix. With an
/// empty suffix the device is single-slot and the list is returned as
/// it is; otherwise a fresh list is built with every name suffixed.
pub fn expand_for_slot(ops: &OpList, sfx: &[u8]) -> (r: OpList)
    ensures
        r@ == spec_expand(ops@, sfx@),
{
    let groups = suffix_pairs(&ops.groups, sfx, false);
    let partitions = suffix_pairs(&ops.partitions, sfx, true);
    let sizes = suffix_pairs(&ops.sizes, sfx, false);
    let r = OpList {
        groups,
        partitions,
        sizes,
        remove_all_groups: ops.remove_all_groups,
        auto_detect_active_slot: ops.auto_detect_active_slot,
    };
    proof {
        if sfx@.len() == 0 {
            assert forall|j: int| 0 <= j < ops@.groups.len() implies suffixed_keys(
                ops@.groups,
                sfx@,
            )[j] == ops@.groups[j] by {
                assert(ops@.groups[j].0 + sfx@ =~= ops@.groups[j].0);
            }
            assert(suffixed_keys(ops@.groups, sfx@) =~= ops@.groups);
            assert forall|j: int| 0 <= j < ops@.partitions.len() implies suffixed_both(
                ops@.partitions,
                sfx@,
            )[j] == ops@.partitions[j] by {
                assert(ops@.partitions[j].0 + sfx@ =~= ops@.partitions[j].0);
                assert(ops@.partitions[j].1 + sfx@ =~= ops@.partitions[j].1);
            }
            assert(suffixed_both(ops@.partitions, sfx@) =~= ops@.partitions);
            assert forall|j: int| 0 <= j < ops@.sizes.len() implies suffixed_keys(
                ops@.sizes,
                sfx@,
            )[j] == ops@.sizes[j] by {
                assert(ops@.sizes[j].0 + sfx@ =~= ops@.sizes[j].0);
            }
            assert(suffixed_keys(ops@.sizes, sfx@) =~= ops@.sizes);
        }
    }
    r
}

/// Each key bound at most once: the association list is a mapping.
pub open spec fn unique_keys(m: Pairs) -> bool {
    forall|i: int, j: int| 0 <= i < j < m.len() ==> (#[trigger] m[i]).0 != (#[trigger] m[j]).0
}

proof fn lemma_alist_put_keys(m: Pairs, k: Seq<u8>, v: Seq<u8>)
    ensures
        forall|j: int|
            0 <= j < alist_put(m, k, v).len() ==> ((#[trigger] alist_put(m, k, v)[j]).0 == k
                || (exists|t: int| 0 <= t < m.len() && (#[trigger] m[t]).0 == alist_put(m, k, v)[j].0)),
    decreases m.len(),
{
    if m.len() == 0 {
    } else if m[0].0 == k {
        assert forall|j: int| 0 <= j < alist_put(m, k, v).len() implies ((#[trigger] alist_put(
            m,
            k,
            v,
        )[j]).0 == k || (exists|t: int|
            0 <= t < m.len() && (#[trigger] m[t]).0 == alist_put(m, k, v)[j].0)) by {
            if j > 0 {
                assert(alist_put(m, k, v)[j] == m.drop_first()[j - 1]);
                assert(m[j].0 == alist_put(m, k, v)[j].0);
            }
        }
    } else {
        lemma_alist_put_keys(m.drop_first(), k, v);
        assert forall|j: int| 0 <= j < alist_put(m, k, v).len() implies ((#[trigger] alist_put(
            m,
            k,
            v,
        )[j]).0 == k || (exists|t: int|
            0 <= t < m.len() && (#[trigger] m[t]).0 == alist_put(m, k, v)[j].0)) by {
            if j > 0 {
                let sub = alist_put(m.drop_first(), k, v);
                assert(alist_put(m, k, v)[j] == sub[j - 1]);
                if sub[j - 1].0 != k {
                    let t = choose|t: int|
                        0 <= t < m.drop_first().len() && (#[trigger] m.drop_first()[t]).0 == sub[j
                            - 1].0;
                    assert(m[t + 1].0 == alist_put(m, k, v)[j].0);
                }
            } else {
                assert(m[0].0 == alist_put(m, k, v)[0].0);
            }
        }
    }
}

/// Binding a key keeps the list a mapping.
proof fn lemma_alist_put_unique(m: Pairs, k: Seq<u8>, v: Seq<u8>)
    requires
        unique_keys(m),
    ensures
        unique_keys(alist_put(m, k, v)),
    decreases m.len(),
{
    if m.len() == 0 {
    } else if m[0].0 == k {
        let r = alist_put(m, k, v);
        assert forall|i: int, j: int| 0 <= i < j < r.len() implies (#[trigger] r[i]).0
            != (#[trigger] r[j]).0 by {
            if i > 0 {
                assert(r[i] == m[i]);
            }
            assert(r[j] == m[j]);
        }
    } else {
        lemma_alist_put_unique(m.drop_first(), k, v);
        lemma_alist_put_keys(m.drop_first(), k, v);
        let r = alist_put(m, k, v);
        let sub = alist_put(m.drop_first(), k, v);
        assert forall|i: int, j: int| 0 <= i < j < r.len() implies (#[trigger] r[i]).0
            != (#[trigger] r[j]).0 by {
            if i == 0 {
                assert(r[0] == m[0]);
                assert(r[j] == sub[j - 1]);
                if sub[j - 1].0 == k {
                } else {
                    let t = choose|t: int|
                        0 <= t < m.drop_first().len() && (#[trigger] m.drop_first()[t]).0 == sub[j
                            - 1].0;
                    assert(m[t + 1].0 == sub[j - 1].0);
                    assert(m[0].0 != m[t + 1].0);
                }
            } else {
                assert(r[i] == sub[i - 1]);
                assert(r[j] == sub[j - 1]);
            }
        }
    }
}

/// One applied line keeps every map of the list a mapping.
proof fn lemma_apply_directive_unique(st: OpListView, line: Seq<u8>)
    requires
        unique_keys(st.groups),
        unique_keys(st.partitions),
        unique_keys(st.sizes),
    ensures
        unique_keys(apply_directive(st, line).groups),
        unique_keys(apply_directive(st, line).partitions),
        unique_keys(apply_directive(st, line).sizes),
{
    let ts = tokens(before_comment(line));
    if ts.len() >= 3 {
        lemma_alist_put_unique(st.groups, ts[1], ts[2]);
        lemma_alist_put_unique(st.partitions, ts[1], ts[2]);
        lemma_alist_put_unique(st.sizes, ts[1], ts[2]);
    }
}

proof fn lemma_apply_directives_unique(st: OpListView, ls: Seq<Seq<u8>>)
    requires
        unique_keys(st.groups),
        unique_keys(st.partitions),
        unique_keys(st.sizes),
    ensures
        unique_keys(apply_directives(st, ls).groups),
        unique_keys(apply_directives(st, ls).partitions),
        unique_keys(apply_directives(st, ls).sizes),
    decreases ls.len(),
{
    if ls.len() > 0 {
        lemma_apply_directive_unique(st, ls[0]);
        lemma_apply_directives_unique(apply_directive(st, ls[0]), ls.drop_first());
    }
}

/// The name-keyed maps of a parsed operation list bind each name once:
/// a later directive for a name replaces the value in place, it never
/// adds a second entry.
pub proof fn lemma_parse_op_list_unique_keys(data: Seq<u8>)
    ensures
        unique_keys(spec_parse_op_list(data).groups),
        unique_keys(spec_parse_op_list(data).partitions),
        unique_keys(spec_parse_op_list(data).sizes),
{
    lemma_apply_directives_unique(empty_ops(), lines_of(data));
}

proof fn lemma_append_injective(a: Seq<u8>, b: Seq<u8>, s: Seq<u8>)
    ensures
        a + s == b + s ==> a == b,
{
    if a + s == b + s {
        assert((a + s).len() == a.len() + s.len());
        assert((b + s).len() == b.len() + s.len());
        assert(a.len() == b.len());
        assert forall|t: int| 0 <= t < a.len() implies a[t] == b[t] by {
            assert((a + s)[t] == (b + s)[t]);
        }
        assert(a =~= b);
    }
}

/// Slot expansion keeps every map of the list a mapping: appending the
/// same suffix to two different names never makes them collide.
pub proof fn lemma_expand_keeps_unique(st: OpListView, sfx: Seq<u8>)
    requires
        unique_keys(st.groups),
        unique_keys(st.partitions),
        unique_keys(st.sizes),
    ensures
        unique_keys(spec_expand(st, sfx).groups),
        unique_keys(spec_expand(st, sfx).partitions),
        unique_keys(spec_expand(st, sfx).sizes),
{
    if sfx.len() != 0 {
        let e = spec_expand(st, sfx);
        assert forall|i: int, j: int| 0 <= i < j < e.groups.len() implies (#[trigger] e.groups[i]).0
            != (#[trigger] e.groups[j]).0 by {
            lemma_append_injective(st.groups[i].0, st.groups[j].0, sfx);
        }
        assert forall|i: int, j: int|
            0 <= i < j < e.partitions.len() implies (#[trigger] e.partitions[i]).0
            != (#[trigger] e.partitions[j]).0 by {
            lemma_append_injective(st.partitions[i].0, st.partitions[j].0, sfx);
        }
        assert forall|i: int, j: int| 0 <= i < j < e.sizes.len() implies (#[trigger] e.sizes[i]).0
            != (#[trigger] e.sizes[j]).0 by {
            lemma_append_injective(st.sizes[i].0, st.sizes[j].0, sfx);
        }
    }
}

} // verus!
