//! Decoding and encoding undo each other: the bytes of a decoded raw document
//! are the bytes it was decoded from.
use crate::binary::format::{
    i32_from_le, le_i32, lemma_le_i32, lemma_raw_document_len, opt_str_ok, opt_str_wire,
    raw_document_len, raw_document_ok, raw_document_wire, raw_group_ok, raw_group_wire,
    raw_groups_wire, raw_resource_fixed, raw_resource_ok, raw_resource_wire, raw_resources_wire,
    raw_subgroup_wire, raw_subgroups_wire, str_wire, I32_MAX,
};
use crate::binary::parse::{
    decode_complete, decode_document, decode_prefix, groups_loop, mark, reaches_group_records, read_count,
    read_group, read_group_head, read_i32, read_opt_string, read_resource, read_string,
    read_subgroup, read_u8, resources_loop, set_context, subgroups_loop, take, DecState,
    DecodeEntry, DecodeLimits, DecodeMode, GroupHead, Parse,
};
use crate::error::ErrorView;
use crate::binary::canonical::{
    document_ok, group_ok, group_to_raw, groups_to_raw, manifest_to_raw, resource_ok,
    resource_to_raw, resources_to_raw, subgroup_ok, subgroup_to_raw, subgroups_to_raw,
    ABSENT_COORDINATE,
};
use crate::raw::{
    convert_group, convert_groups, convert_manifest, convert_resource, convert_resources,
    convert_subgroups, optional_coordinate, RawGroupView, RawManifestView, RawResourceView,
    RawSubgroupView,
};
use crate::binary::canonical::document_wire;
use crate::binary::reader::{borrowed_mode, owned_mode};
use crate::raw::{
    alloc_sizes, budget_groups, budget_opt, budget_records, budget_resources, budget_subgroups,
    semantic_budget, AllocSizes,
};
use crate::{semantic_decode, semantic_decode_prefix};
use crate::types::{GroupView, ManifestView, ResourceView, SubgroupView};
use vstd::utf8::{decode_utf8, encode_utf8, valid_utf8};
use vstd::prelude::*;

verus! {

proof fn lemma_join(bytes: Seq<u8>, a: int, b: int, c: int)
    requires
        0 <= a <= b <= c <= bytes.len(),
    ensures
        bytes.subrange(a, c) == bytes.subrange(a, b) + bytes.subrange(b, c),
{
    assert(bytes.subrange(a, c) =~= bytes.subrange(a, b) + bytes.subrange(b, c));
}

// ----- every successful read consumed exactly the bytes of what it read -----

proof fn lemma_read_u8_reads(bytes: Seq<u8>, st: DecState, field: Seq<char>)
    requires
        0 <= st.pos,
    ensures
        read_u8(bytes, st, field) matches Ok((v, s)) ==> s.pos == st.pos + 1 && s.pos
            <= bytes.len() && bytes.subrange(st.pos, s.pos) == seq![v],
{
    if let Ok((v, s)) = read_u8(bytes, st, field) {
        assert(bytes.subrange(st.pos, s.pos) =~= seq![v]);
    }
}

proof fn lemma_read_i32_reads(bytes: Seq<u8>, st: DecState, field: Seq<char>)
    requires
        0 <= st.pos,
    ensures
        read_i32(bytes, st, field) matches Ok((v, s)) ==> s.pos == st.pos + 4 && s.pos
            <= bytes.len() && bytes.subrange(st.pos, s.pos) == le_i32(v),
{
    if let Ok((v, s)) = read_i32(bytes, st, field) {
        let b = bytes.subrange(st.pos, st.pos + 4);
        lemma_le_i32(v, b[0], b[1], b[2], b[3]);
        assert(b =~= seq![b[0], b[1], b[2], b[3]]);
    }
}

proof fn lemma_read_count_reads(bytes: Seq<u8>, st: DecState, field: Seq<char>, limit: usize)
    requires
        0 <= st.pos,
    ensures
        read_count(bytes, st, field, limit) matches Ok((n, s)) ==> s.pos == st.pos + 4 && s.pos
            <= bytes.len() && 0 <= n <= I32_MAX && bytes.subrange(st.pos, s.pos) == le_i32(
            n as i32,
        ),
{
    lemma_read_i32_reads(bytes, st, field);
}

proof fn lemma_read_string_reads(
    bytes: Seq<u8>,
    st: DecState,
    field: Seq<char>,
    limits: DecodeLimits,
    mode: DecodeMode,
)
    requires
        0 <= st.pos,
    ensures
        read_string(bytes, st, field, limits, mode) matches Ok((v, s)) ==> st.pos <= s.pos
            <= bytes.len() && v.len() <= I32_MAX && bytes.subrange(st.pos, s.pos) == str_wire(v),
{
    lemma_read_i32_reads(bytes, st, field);
    if let Ok((v, s)) = read_string(bytes, st, field, limits, mode) {
        let (n, s1) = read_i32(bytes, st, field)->Ok_0;
        lemma_join(bytes, st.pos, s1.pos, s.pos);
    }
}

proof fn lemma_read_opt_string_reads(
    bytes: Seq<u8>,
    st: DecState,
    flag: u8,
    field: Seq<char>,
    limits: DecodeLimits,
    mode: DecodeMode,
)
    requires
        0 <= st.pos <= bytes.len(),
    ensures
        read_opt_string(bytes, st, flag, field, limits, mode) matches Ok((v, s)) ==> st.pos
            <= s.pos <= bytes.len() && opt_str_ok(flag, v) && bytes.subrange(st.pos, s.pos)
            == opt_str_wire(flag, v),
{
    lemma_read_string_reads(bytes, st, field, limits, mode);
    if flag != 1 {
        assert(bytes.subrange(st.pos, st.pos) =~= Seq::<u8>::empty());
    }
}

proof fn lemma_read_subgroup_reads(
    bytes: Seq<u8>,
    st: DecState,
    limits: DecodeLimits,
    mode: DecodeMode,
)
    requires
        0 <= st.pos,
    ensures
        read_subgroup(bytes, st, limits, mode) matches Ok((v, s)) ==> st.pos <= s.pos
            <= bytes.len() && v.id.len() <= I32_MAX && bytes.subrange(st.pos, s.pos)
            == raw_subgroup_wire(v),
{
    lemma_read_i32_reads(bytes, st, "subgroup resolution"@);
    if let Ok((v, s)) = read_subgroup(bytes, st, limits, mode) {
        let (r, s1) = read_i32(bytes, st, "subgroup resolution"@)->Ok_0;
        lemma_read_string_reads(bytes, s1, "subgroup id"@, limits, mode);
        lemma_join(bytes, st.pos, s1.pos, s.pos);
    }
}

proof fn lemma_subgroups_push(acc: Seq<RawSubgroupView>, s: RawSubgroupView)
    ensures
        raw_subgroups_wire(acc.push(s)) == raw_subgroups_wire(acc) + raw_subgroup_wire(s),
{
    assert(acc.push(s).drop_last() =~= acc);
}

proof fn lemma_subgroups_loop_reads(
    bytes: Seq<u8>,
    st: DecState,
    group: int,
    j: int,
    n: int,
    acc: Seq<RawSubgroupView>,
    limits: DecodeLimits,
    mode: DecodeMode,
)
    requires
        0 <= st.pos <= bytes.len(),
        0 <= j <= n,
        forall|i: int| 0 <= i < acc.len() ==> #[trigger] acc[i].id.len() <= I32_MAX,
    ensures
        subgroups_loop(bytes, st, group, j, n, acc, limits, mode) matches Ok((out, s)) ==> st.pos
            <= s.pos <= bytes.len() && out.len() == acc.len() + n - j && (forall|i: int|
            0 <= i < out.len() ==> #[trigger] out[i].id.len() <= I32_MAX) && raw_subgroups_wire(
            out,
        ) == raw_subgroups_wire(acc) + bytes.subrange(st.pos, s.pos),
    decreases n - j,
{
    if j >= n {
        assert(bytes.subrange(st.pos, st.pos) =~= Seq::<u8>::empty());
        assert(raw_subgroups_wire(acc) + Seq::<u8>::empty() =~= raw_subgroups_wire(acc));
    } else {
        let st1 = set_context(
            st,
            DecodeEntry::Subgroup { group: group as usize, subgroup: j as usize },
            "subgroup resolution"@,
        );
        lemma_read_subgroup_reads(bytes, st1, limits, mode);
        if let Ok((v, s2)) = read_subgroup(bytes, st1, limits, mode) {
            let acc2 = acc.push(v);
            assert forall|i: int| 0 <= i < acc2.len() implies #[trigger] acc2[i].id.len()
                <= I32_MAX by {
                if i < acc.len() {
                    assert(acc2[i] == acc[i]);
                }
            }
            lemma_subgroups_loop_reads(bytes, s2, group, j + 1, n, acc2, limits, mode);
            if let Ok((out, s)) = subgroups_loop(bytes, s2, group, j + 1, n, acc2, limits, mode) {
                lemma_subgroups_push(acc, v);
                lemma_join(bytes, st.pos, s2.pos, s.pos);
                assert(raw_subgroups_wire(out) =~= raw_subgroups_wire(acc) + bytes.subrange(
                    st.pos,
                    s.pos,
                ));
            }
        }
    }
}

proof fn lemma_read_resource_reads(
    bytes: Seq<u8>,
    st: DecState,
    limits: DecodeLimits,
    mode: DecodeMode,
)
    requires
        0 <= st.pos,
    ensures
        read_resource(bytes, st, limits, mode) matches Ok((v, s)) ==> st.pos <= s.pos
            <= bytes.len() && raw_resource_ok(v) && bytes.subrange(st.pos, s.pos)
            == raw_resource_wire(v),
{
    if let Ok((v, s)) = read_resource(bytes, st, limits, mode) {
        let (t, s1) = read_u8(bytes, st, "resource type"@)->Ok_0;
        lemma_read_u8_reads(bytes, st, "resource type"@);
        let (slot, s2) = read_i32(bytes, s1, "resource slot"@)->Ok_0;
        lemma_read_i32_reads(bytes, s1, "resource slot"@);
        lemma_join(bytes, st.pos, s1.pos, s2.pos);
        let (width, s3) = read_i32(bytes, s2, "resource width"@)->Ok_0;
        lemma_read_i32_reads(bytes, s2, "resource width"@);
        lemma_join(bytes, st.pos, s2.pos, s3.pos);
        let (height, s4) = read_i32(bytes, s3, "resource height"@)->Ok_0;
        lemma_read_i32_reads(bytes, s3, "resource height"@);
        lemma_join(bytes, st.pos, s3.pos, s4.pos);
        let (x, s5) = read_i32(bytes, s4, "resource x"@)->Ok_0;
        lemma_read_i32_reads(bytes, s4, "resource x"@);
        lemma_join(bytes, st.pos, s4.pos, s5.pos);
        let (y, s6) = read_i32(bytes, s5, "resource y"@)->Ok_0;
        lemma_read_i32_reads(bytes, s5, "resource y"@);
        lemma_join(bytes, st.pos, s5.pos, s6.pos);
        let (ax, s7) = read_i32(bytes, s6, "resource atlas x"@)->Ok_0;
        lemma_read_i32_reads(bytes, s6, "resource atlas x"@);
        lemma_join(bytes, st.pos, s6.pos, s7.pos);
        let (ay, s8) = read_i32(bytes, s7, "resource atlas y"@)->Ok_0;
        lemma_read_i32_reads(bytes, s7, "resource atlas y"@);
        lemma_join(bytes, st.pos, s7.pos, s8.pos);
        let (aw, s9) = read_i32(bytes, s8, "resource atlas width"@)->Ok_0;
        lemma_read_i32_reads(bytes, s8, "resource atlas width"@);
        lemma_join(bytes, st.pos, s8.pos, s9.pos);
        let (ah, s10) = read_i32(bytes, s9, "resource atlas height"@)->Ok_0;
        lemma_read_i32_reads(bytes, s9, "resource atlas height"@);
        lemma_join(bytes, st.pos, s9.pos, s10.pos);
        let (cols, s11) = read_i32(bytes, s10, "resource columns"@)->Ok_0;
        lemma_read_i32_reads(bytes, s10, "resource columns"@);
        lemma_join(bytes, st.pos, s10.pos, s11.pos);
        let (rows, s12) = read_i32(bytes, s11, "resource rows"@)->Ok_0;
        lemma_read_i32_reads(bytes, s11, "resource rows"@);
        lemma_join(bytes, st.pos, s11.pos, s12.pos);
        let (atlas, s13) = read_u8(bytes, s12, "resource atlas flag"@)->Ok_0;
        lemma_read_u8_reads(bytes, s12, "resource atlas flag"@);
        let (has_id, s14) = read_u8(bytes, s13, "resource id flag"@)->Ok_0;
        lemma_read_u8_reads(bytes, s13, "resource id flag"@);
        let (has_path, s15) = read_u8(bytes, s14, "resource path flag"@)->Ok_0;
        lemma_read_u8_reads(bytes, s14, "resource path flag"@);
        let (has_parent, s16) = read_u8(bytes, s15, "resource parent flag"@)->Ok_0;
        lemma_read_u8_reads(bytes, s15, "resource parent flag"@);
        assert(bytes.subrange(s12.pos, s16.pos) =~= seq![atlas, has_id, has_path, has_parent]) by {
            assert(bytes.subrange(s12.pos, s13.pos)[0] == atlas);
            assert(bytes.subrange(s13.pos, s14.pos)[0] == has_id);
            assert(bytes.subrange(s14.pos, s15.pos)[0] == has_path);
            assert(bytes.subrange(s15.pos, s16.pos)[0] == has_parent);
        }
        lemma_join(bytes, st.pos, s12.pos, s16.pos);
        assert(bytes.subrange(st.pos, s16.pos) == raw_resource_fixed(v));
        let (id, s17) = read_opt_string(bytes, s16, has_id, "resource id"@, limits, mode)->Ok_0;
        lemma_read_opt_string_reads(bytes, s16, has_id, "resource id"@, limits, mode);
        lemma_join(bytes, st.pos, s16.pos, s17.pos);
        let (path, s18) = read_opt_string(bytes, s17, has_path, "resource path"@, limits, mode)->Ok_0;
        lemma_read_opt_string_reads(bytes, s17, has_path, "resource path"@, limits, mode);
        lemma_join(bytes, st.pos, s17.pos, s18.pos);
        lemma_read_opt_string_reads(bytes, s18, has_parent, "resource parent"@, limits, mode);
        lemma_join(bytes, st.pos, s18.pos, s.pos);
    }
}

proof fn lemma_resources_push(acc: Seq<RawResourceView>, r: RawResourceView)
    ensures
        raw_resources_wire(acc.push(r)) == raw_resources_wire(acc) + raw_resource_wire(r),
{
    assert(acc.push(r).drop_last() =~= acc);
}

#[verifier::spinoff_prover]
#[verifier::rlimit(30)]
proof fn lemma_resources_loop_reads(
    bytes: Seq<u8>,
    st: DecState,
    group: int,
    k: int,
    n: int,
    acc: Seq<RawResourceView>,
    limits: DecodeLimits,
    mode: DecodeMode,
)
    requires
        0 <= st.pos <= bytes.len(),
        0 <= k <= n,
        forall|i: int| 0 <= i < acc.len() ==> raw_resource_ok(#[trigger] acc[i]),
    ensures
        resources_loop(bytes, st, group, k, n, acc, limits, mode) matches Ok((out, s)) ==> st.pos
            <= s.pos <= bytes.len() && out.len() == acc.len() + n - k && (forall|i: int|
            0 <= i < out.len() ==> raw_resource_ok(#[trigger] out[i])) && raw_resources_wire(out)
            == raw_resources_wire(acc) + bytes.subrange(st.pos, s.pos),
    decreases n - k,
{
    if k >= n {
        assert(bytes.subrange(st.pos, st.pos) =~= Seq::<u8>::empty());
        assert(raw_resources_wire(acc) + Seq::<u8>::empty() =~= raw_resources_wire(acc));
    } else {
        let st1 = set_context(
            st,
            DecodeEntry::Resource { group: group as usize, resource: k as usize },
            "resource type"@,
        );
        lemma_read_resource_reads(bytes, st1, limits, mode);
        if let Ok((v, s2)) = read_resource(bytes, st1, limits, mode) {
            let acc2 = acc.push(v);
            assert forall|i: int| 0 <= i < acc2.len() implies raw_resource_ok(#[trigger] acc2[i]) by {
                if i < acc.len() {
                    assert(acc2[i] == acc[i]);
                }
            }
            lemma_resources_loop_reads(bytes, s2, group, k + 1, n, acc2, limits, mode);
            if let Ok((out, s)) = resources_loop(bytes, s2, group, k + 1, n, acc2, limits, mode) {
                lemma_resources_push(acc, v);
                lemma_join(bytes, st.pos, s2.pos, s.pos);
                assert(raw_resources_wire(out) =~= raw_resources_wire(acc) + bytes.subrange(
                    st.pos,
                    s.pos,
                ));
            }
        }
    }
}

/// The bytes of a group record's fixed part and strings.
pub open spec fn group_head_wire(h: GroupHead) -> Seq<u8> {
    seq![h.group_type] + le_i32(h.resolution) + le_i32(h.subgroup_count as i32) + le_i32(
        h.resource_count as i32,
    ) + seq![h.has_id, h.has_parent] + opt_str_wire(h.has_id, h.id) + opt_str_wire(
        h.has_parent,
        h.parent,
    )
}

proof fn lemma_read_group_head_reads(
    bytes: Seq<u8>,
    st: DecState,
    limits: DecodeLimits,
    mode: DecodeMode,
)
    requires
        0 <= st.pos,
    ensures
        read_group_head(bytes, st, limits, mode) matches Ok((h, s)) ==> st.pos <= s.pos
            <= bytes.len() && 0 <= h.subgroup_count <= I32_MAX && 0 <= h.resource_count
            <= I32_MAX && opt_str_ok(h.has_id, h.id) && opt_str_ok(h.has_parent, h.parent)
            && bytes.subrange(st.pos, s.pos) == group_head_wire(h),
{
    if let Ok((h, s)) = read_group_head(bytes, st, limits, mode) {
        let (t, s1) = read_u8(bytes, st, "group type"@)->Ok_0;
        lemma_read_u8_reads(bytes, st, "group type"@);
        let (res, s2) = read_i32(bytes, s1, "group resolution"@)->Ok_0;
        lemma_read_i32_reads(bytes, s1, "group resolution"@);
        lemma_join(bytes, st.pos, s1.pos, s2.pos);
        let (sc, s3) = read_count(bytes, s2, "subgroup count"@, limits.max_subgroups_per_group)->Ok_0;
        lemma_read_count_reads(bytes, s2, "subgroup count"@, limits.max_subgroups_per_group);
        lemma_join(bytes, st.pos, s2.pos, s3.pos);
        let (rc, s4) = read_count(bytes, s3, "resource count"@, limits.max_resources_per_group)->Ok_0;
        lemma_read_count_reads(bytes, s3, "resource count"@, limits.max_resources_per_group);
        lemma_join(bytes, st.pos, s3.pos, s4.pos);
        let s5 = crate::binary::parse::charge_entries(s4, sc, limits)->Ok_0;
        let s6 = crate::binary::parse::charge_entries(s5, rc, limits)->Ok_0;
        let (has_id, s7) = read_u8(bytes, s6, "group id flag"@)->Ok_0;
        lemma_read_u8_reads(bytes, s6, "group id flag"@);
        let (has_parent, s8) = read_u8(bytes, s7, "group parent flag"@)->Ok_0;
        lemma_read_u8_reads(bytes, s7, "group parent flag"@);
        assert(bytes.subrange(s6.pos, s8.pos) =~= seq![has_id, has_parent]) by {
            assert(bytes.subrange(s6.pos, s7.pos)[0] == has_id);
            assert(bytes.subrange(s7.pos, s8.pos)[0] == has_parent);
        }
        lemma_join(bytes, st.pos, s6.pos, s8.pos);
        let (id, s9) = read_opt_string(bytes, s8, has_id, "group id"@, limits, mode)->Ok_0;
        lemma_read_opt_string_reads(bytes, s8, has_id, "group id"@, limits, mode);
        lemma_join(bytes, st.pos, s8.pos, s9.pos);
        lemma_read_opt_string_reads(bytes, s9, has_parent, "group parent"@, limits, mode);
        lemma_join(bytes, st.pos, s9.pos, s.pos);
    }
}

proof fn lemma_read_group_reads(
    bytes: Seq<u8>,
    st: DecState,
    group: int,
    limits: DecodeLimits,
    mode: DecodeMode,
)
    requires
        0 <= st.pos,
    ensures
        read_group(bytes, st, group, limits, mode) matches Ok((g, s)) ==> st.pos <= s.pos
            <= bytes.len() && raw_group_ok(g) && bytes.subrange(st.pos, s.pos) == raw_group_wire(
            g,
        ),
{
    lemma_read_group_head_reads(bytes, st, limits, mode);
    if let Ok((g, s)) = read_group(bytes, st, group, limits, mode) {
        let (h, s1) = read_group_head(bytes, st, limits, mode)->Ok_0;
        let s2 = crate::binary::parse::allocate(
            s1,
            h.subgroup_count,
            mode.subgroup_record_size,
            "subgroup records"@,
            limits,
        )->Ok_0;
        lemma_subgroups_loop_reads(bytes, s2, group, 0, h.subgroup_count, Seq::empty(), limits, mode);
        let (subgroups, s3) = subgroups_loop(
            bytes,
            s2,
            group,
            0,
            h.subgroup_count,
            Seq::empty(),
            limits,
            mode,
        )->Ok_0;
        let s4 = crate::binary::parse::allocate(
            s3,
            h.resource_count,
            mode.resource_record_size,
            "resource records"@,
            limits,
        )->Ok_0;
        lemma_resources_loop_reads(bytes, s4, group, 0, h.resource_count, Seq::empty(), limits, mode);
        assert(raw_subgroups_wire(Seq::<RawSubgroupView>::empty()) + bytes.subrange(s2.pos, s3.pos)
            =~= bytes.subrange(s2.pos, s3.pos));
        assert(raw_resources_wire(Seq::<RawResourceView>::empty()) + bytes.subrange(s4.pos, s.pos)
            =~= bytes.subrange(s4.pos, s.pos));
        assert(h.subgroup_count as i32 == g.subgroups.len() as i32);
        assert(h.resource_count as i32 == g.resources.len() as i32);
        assert(group_head_wire(h) == crate::binary::format::raw_group_head_wire(g));
        lemma_join(bytes, st.pos, s2.pos, s3.pos);
        lemma_join(bytes, st.pos, s4.pos, s.pos);
    }
}

proof fn lemma_groups_push(acc: Seq<RawGroupView>, g: RawGroupView)
    ensures
        raw_groups_wire(acc.push(g)) == raw_groups_wire(acc) + raw_group_wire(g),
{
    assert(acc.push(g).drop_last() =~= acc);
}

#[verifier::spinoff_prover]
#[verifier::rlimit(30)]
proof fn lemma_groups_loop_reads(
    bytes: Seq<u8>,
    st: DecState,
    i: int,
    n: int,
    acc: Seq<RawGroupView>,
    limits: DecodeLimits,
    mode: DecodeMode,
)
    requires
        0 <= st.pos <= bytes.len(),
        0 <= i <= n,
        forall|k: int| 0 <= k < acc.len() ==> raw_group_ok(#[trigger] acc[k]),
    ensures
        groups_loop(bytes, st, i, n, acc, limits, mode) matches Ok((out, s)) ==> st.pos <= s.pos
            <= bytes.len() && out.len() == acc.len() + n - i && (forall|k: int|
            0 <= k < out.len() ==> raw_group_ok(#[trigger] out[k])) && raw_groups_wire(out)
            == raw_groups_wire(acc) + bytes.subrange(st.pos, s.pos),
    decreases n - i,
{
    if i >= n {
        assert(bytes.subrange(st.pos, st.pos) =~= Seq::<u8>::empty());
        assert(raw_groups_wire(acc) + Seq::<u8>::empty() =~= raw_groups_wire(acc));
    } else {
        let st1 = set_context(st, DecodeEntry::Group(i as usize), "group type"@);
        lemma_read_group_reads(bytes, st1, i, limits, mode);
        if let Ok((g, s2)) = read_group(bytes, st1, i, limits, mode) {
            let acc2 = acc.push(g);
            assert forall|k: int| 0 <= k < acc2.len() implies raw_group_ok(#[trigger] acc2[k]) by {
                if k < acc.len() {
                    assert(acc2[k] == acc[k]);
                }
            }
            lemma_groups_loop_reads(bytes, s2, i + 1, n, acc2, limits, mode);
            if let Ok((out, s)) = groups_loop(bytes, s2, i + 1, n, acc2, limits, mode) {
                lemma_groups_push(acc, g);
                lemma_join(bytes, st.pos, s2.pos, s.pos);
                assert(raw_groups_wire(out) =~= raw_groups_wire(acc) + bytes.subrange(
                    st.pos,
                    s.pos,
                ));
            }
        }
    }
}

proof fn lemma_decode_document_reads(bytes: Seq<u8>, limits: DecodeLimits, mode: DecodeMode)
    ensures
        decode_document(bytes, limits, mode) matches Ok((m, s)) ==> 0 <= s.pos <= bytes.len()
            && raw_document_ok(m) && bytes.subrange(0, s.pos) == raw_document_wire(m),
{
    if let Ok((m, s)) = decode_document(bytes, limits, mode) {
        let st = set_context(
            crate::binary::parse::initial_state(),
            DecodeEntry::Document,
            "slot count"@,
        );
        let (slot_count, s1) = read_i32(bytes, st, "slot count"@)->Ok_0;
        lemma_read_i32_reads(bytes, st, "slot count"@);
        let (n, s2) = read_count(bytes, s1, "group count"@, limits.max_groups)->Ok_0;
        lemma_read_count_reads(bytes, s1, "group count"@, limits.max_groups);
        lemma_join(bytes, 0, s1.pos, s2.pos);
        let s3 = crate::binary::parse::charge_entries(s2, n, limits)->Ok_0;
        let s4 = crate::binary::parse::allocate(s3, n, mode.group_record_size, "group records"@, limits)->Ok_0;
        lemma_groups_loop_reads(bytes, s4, 0, n, Seq::empty(), limits, mode);
        assert(raw_groups_wire(Seq::<RawGroupView>::empty()) + bytes.subrange(s4.pos, s.pos)
            =~= bytes.subrange(s4.pos, s.pos));
        assert(n as i32 == m.groups.len() as i32);
        lemma_join(bytes, 0, s4.pos, s.pos);
    }
}

/// A raw document decoded from `bytes` is written back as exactly those bytes:
/// every count, flag and string of it can be written, and when the bytes fit
/// in memory the encoder's length computation gives their number.
pub proof fn decoded_raw_document_reencodes(bytes: Seq<u8>, limits: DecodeLimits, mode: DecodeMode)
    ensures
        decode_complete(bytes, limits, mode) matches Ok(m) ==> raw_document_ok(m)
            && raw_document_wire(m) == bytes && (bytes.len() <= usize::MAX ==> raw_document_len(m)
            == Ok::<nat, crate::error::ErrorView>(bytes.len())),
{
    lemma_decode_document_reads(bytes, limits, mode);
    if let Ok(m) = decode_complete(bytes, limits, mode) {
        assert(bytes.subrange(0, bytes.len() as int) =~= bytes);
        lemma_raw_document_len(m);
    }
}

/// A raw document decoded from the start of a stream is written back as
/// exactly the bytes that decoding took.
pub proof fn decoded_raw_prefix_reencodes(bytes: Seq<u8>, limits: DecodeLimits, mode: DecodeMode)
    ensures
        decode_prefix(bytes, limits, mode) matches Ok((m, n)) ==> 0 <= n <= bytes.len()
            && raw_document_ok(m) && raw_document_wire(m) == bytes.take(n),
{
    lemma_decode_document_reads(bytes, limits, mode);
}

// ----- decoding what was written gives it back, unless a limit stops it -----

/// The errors that only a decode limit or a machine limit raises.
pub open spec fn is_limit_error(e: ErrorView) -> bool {
    ||| e is CountLimitExceeded
    ||| e is StringLimitExceeded
    ||| e is TotalStringLimitExceeded
    ||| e is AllocationLimitExceeded
    ||| e is LengthOverflow
}

/// The bytes `w` stand in `bytes` at `pos`.
pub open spec fn holds_at(bytes: Seq<u8>, pos: int, w: Seq<u8>) -> bool {
    &&& 0 <= pos
    &&& pos + w.len() <= bytes.len()
    &&& bytes.subrange(pos, pos + w.len()) == w
}

/// A read gave `x` and stopped at `end`, or a limit stopped it.
pub open spec fn parsed<T>(r: Parse<T>, x: T, end: int) -> bool {
    match r {
        Ok((y, s)) => y == x && s.pos == end,
        Err((e, _)) => is_limit_error(e),
    }
}

proof fn lemma_split(bytes: Seq<u8>, pos: int, a: Seq<u8>, b: Seq<u8>)
    requires
        holds_at(bytes, pos, a + b),
    ensures
        holds_at(bytes, pos, a),
        holds_at(bytes, pos + a.len(), b),
{
    let w = a + b;
    assert(bytes.subrange(pos, pos + a.len()) =~= w.subrange(0, a.len() as int));
    assert(w.subrange(0, a.len() as int) =~= a);
    assert(bytes.subrange(pos + a.len(), pos + w.len()) =~= w.subrange(
        a.len() as int,
        w.len() as int,
    ));
    assert(w.subrange(a.len() as int, w.len() as int) =~= b);
}

proof fn lemma_u8_parses(bytes: Seq<u8>, st: DecState, field: Seq<char>, x: u8)
    requires
        holds_at(bytes, st.pos, seq![x]),
    ensures
        read_u8(bytes, st, field) matches Ok((y, s)) && y == x && s.pos == st.pos + 1,
{
    assert(bytes.subrange(st.pos, st.pos + 1)[0] == seq![x][0]);
}

proof fn lemma_i32_parses(bytes: Seq<u8>, st: DecState, field: Seq<char>, x: i32)
    requires
        holds_at(bytes, st.pos, le_i32(x)),
    ensures
        read_i32(bytes, st, field) matches Ok((y, s)) && y == x && s.pos == st.pos + 4,
{
    lemma_le_i32(x, 0, 0, 0, 0);
    let b = bytes.subrange(st.pos, st.pos + 4);
    assert(b[0] == le_i32(x)[0] && b[1] == le_i32(x)[1] && b[2] == le_i32(x)[2] && b[3] == le_i32(
        x,
    )[3]);
}

proof fn lemma_count_parses(bytes: Seq<u8>, st: DecState, field: Seq<char>, limit: usize, n: int)
    requires
        0 <= n <= I32_MAX,
        holds_at(bytes, st.pos, le_i32(n as i32)),
    ensures
        parsed(read_count(bytes, st, field, limit), n, st.pos + 4),
{
    lemma_i32_parses(bytes, mark(st, field), field, n as i32);
}

proof fn lemma_string_parses(
    bytes: Seq<u8>,
    st: DecState,
    field: Seq<char>,
    limits: DecodeLimits,
    mode: DecodeMode,
    x: Seq<u8>,
)
    requires
        x.len() <= I32_MAX,
        holds_at(bytes, st.pos, str_wire(x)),
    ensures
        parsed(read_string(bytes, st, field, limits, mode), x, st.pos + str_wire(x).len()),
{
    lemma_split(bytes, st.pos, le_i32(x.len() as i32), x);
    lemma_i32_parses(bytes, st, field, x.len() as i32);
    lemma_le_i32(x.len() as i32, 0, 0, 0, 0);
}

proof fn lemma_opt_string_parses(
    bytes: Seq<u8>,
    st: DecState,
    flag: u8,
    field: Seq<char>,
    limits: DecodeLimits,
    mode: DecodeMode,
    x: Option<Seq<u8>>,
)
    requires
        opt_str_ok(flag, x),
        holds_at(bytes, st.pos, opt_str_wire(flag, x)),
    ensures
        parsed(
            read_opt_string(bytes, st, flag, field, limits, mode),
            x,
            st.pos + opt_str_wire(flag, x).len(),
        ),
{
    if flag == 1 {
        lemma_string_parses(bytes, st, field, limits, mode, x->0);
    }
}

proof fn lemma_subgroup_parses(
    bytes: Seq<u8>,
    st: DecState,
    limits: DecodeLimits,
    mode: DecodeMode,
    x: RawSubgroupView,
)
    requires
        x.id.len() <= I32_MAX,
        holds_at(bytes, st.pos, raw_subgroup_wire(x)),
    ensures
        parsed(read_subgroup(bytes, st, limits, mode), x, st.pos + raw_subgroup_wire(x).len()),
{
    lemma_split(bytes, st.pos, le_i32(x.resolution), str_wire(x.id));
    lemma_i32_parses(bytes, st, "subgroup resolution"@, x.resolution);
    let s1 = read_i32(bytes, st, "subgroup resolution"@)->Ok_0.1;
    lemma_string_parses(bytes, s1, "subgroup id"@, limits, mode, x.id);
}

proof fn lemma_subgroups_prefix(subs: Seq<RawSubgroupView>, k: int) -> (t: Seq<u8>)
    requires
        0 <= k <= subs.len(),
    ensures
        raw_subgroups_wire(subs) == raw_subgroups_wire(subs.take(k)) + t,
    decreases subs.len(),
{
    if k == subs.len() {
        assert(subs.take(k) =~= subs);
        assert(raw_subgroups_wire(subs) =~= raw_subgroups_wire(subs) + Seq::<u8>::empty());
        Seq::empty()
    } else {
        let t0 = lemma_subgroups_prefix(subs.drop_last(), k);
        assert(subs.drop_last().take(k) =~= subs.take(k));
        let t = t0 + raw_subgroup_wire(subs.last());
        assert(raw_subgroups_wire(subs) =~= raw_subgroups_wire(subs.take(k)) + t);
        t
    }
}

proof fn lemma_subgroups_loop_parses(
    bytes: Seq<u8>,
    st: DecState,
    group: int,
    j: int,
    subs: Seq<RawSubgroupView>,
    limits: DecodeLimits,
    mode: DecodeMode,
    p0: int,
)
    requires
        0 <= j <= subs.len(),
        forall|i: int| 0 <= i < subs.len() ==> #[trigger] subs[i].id.len() <= I32_MAX,
        holds_at(bytes, p0, raw_subgroups_wire(subs)),
        st.pos == p0 + raw_subgroups_wire(subs.take(j)).len(),
    ensures
        parsed(
            subgroups_loop(bytes, st, group, j, subs.len() as int, subs.take(j), limits, mode),
            subs,
            p0 + raw_subgroups_wire(subs).len(),
        ),
    decreases subs.len() - j,
{
    if j >= subs.len() {
        assert(subs.take(j) =~= subs);
    } else {
        let st1 = set_context(
            st,
            DecodeEntry::Subgroup { group: group as usize, subgroup: j as usize },
            "subgroup resolution"@,
        );
        let t = lemma_subgroups_prefix(subs, j + 1);
        lemma_split(bytes, p0, raw_subgroups_wire(subs.take(j + 1)), t);
        assert(subs.take(j + 1).drop_last() =~= subs.take(j));
        lemma_split(bytes, p0, raw_subgroups_wire(subs.take(j)), raw_subgroup_wire(subs[j]));
        lemma_subgroup_parses(bytes, st1, limits, mode, subs[j]);
        if let Ok((y, s2)) = read_subgroup(bytes, st1, limits, mode) {
            assert(subs.take(j).push(y) =~= subs.take(j + 1));
            lemma_subgroups_loop_parses(bytes, s2, group, j + 1, subs, limits, mode, p0);
        }
    }
}

proof fn lemma_sub_holds(bytes: Seq<u8>, p: int, w: Seq<u8>, i: int, j: int)
    requires
        holds_at(bytes, p, w),
        0 <= i <= j <= w.len(),
    ensures
        holds_at(bytes, p + i, w.subrange(i, j)),
{
    assert(bytes.subrange(p + i, p + j) =~= w.subrange(i, j));
}

proof fn lemma_resource_parses(
    bytes: Seq<u8>,
    st: DecState,
    limits: DecodeLimits,
    mode: DecodeMode,
    x: RawResourceView,
)
    requires
        raw_resource_ok(x),
        holds_at(bytes, st.pos, raw_resource_wire(x)),
    ensures
        parsed(read_resource(bytes, st, limits, mode), x, st.pos + raw_resource_wire(x).len()),
{
    let p = st.pos;
    let f1 = seq![x.resource_type];
    let f2 = f1 + le_i32(x.slot);
    let f3 = f2 + le_i32(x.width);
    let f4 = f3 + le_i32(x.height);
    let f5 = f4 + le_i32(x.x);
    let f6 = f5 + le_i32(x.y);
    let f7 = f6 + le_i32(x.ax);
    let f8 = f7 + le_i32(x.ay);
    let f9 = f8 + le_i32(x.aw);
    let f10 = f9 + le_i32(x.ah);
    let f11 = f10 + le_i32(x.cols);
    let f12 = f11 + le_i32(x.rows);
    let flags = seq![x.atlas, x.has_id, x.has_path, x.has_parent];
    let fixed = f12 + flags;
    assert(fixed == raw_resource_fixed(x));
    let a = opt_str_wire(x.has_id, x.id);
    let b = opt_str_wire(x.has_path, x.path);
    let c = opt_str_wire(x.has_parent, x.parent);
    lemma_split(bytes, p, fixed + a + b, c);
    lemma_split(bytes, p, fixed + a, b);
    lemma_split(bytes, p, fixed, a);
    lemma_split(bytes, p, f12, flags);
    lemma_split(bytes, p, f11, le_i32(x.rows));
    lemma_split(bytes, p, f10, le_i32(x.cols));
    lemma_split(bytes, p, f9, le_i32(x.ah));
    lemma_split(bytes, p, f8, le_i32(x.aw));
    lemma_split(bytes, p, f7, le_i32(x.ay));
    lemma_split(bytes, p, f6, le_i32(x.ax));
    lemma_split(bytes, p, f5, le_i32(x.y));
    lemma_split(bytes, p, f4, le_i32(x.x));
    lemma_split(bytes, p, f3, le_i32(x.height));
    lemma_split(bytes, p, f2, le_i32(x.width));
    lemma_split(bytes, p, f1, le_i32(x.slot));
    lemma_le_i32(x.slot, 0, 0, 0, 0);
    lemma_le_i32(x.width, 0, 0, 0, 0);
    lemma_le_i32(x.height, 0, 0, 0, 0);
    lemma_le_i32(x.x, 0, 0, 0, 0);
    lemma_le_i32(x.y, 0, 0, 0, 0);
    lemma_le_i32(x.ax, 0, 0, 0, 0);
    lemma_le_i32(x.ay, 0, 0, 0, 0);
    lemma_le_i32(x.aw, 0, 0, 0, 0);
    lemma_le_i32(x.ah, 0, 0, 0, 0);
    lemma_le_i32(x.cols, 0, 0, 0, 0);
    lemma_le_i32(x.rows, 0, 0, 0, 0);
    let q = p + f12.len();
    lemma_sub_holds(bytes, q, flags, 0, 1);
    lemma_sub_holds(bytes, q, flags, 1, 2);
    lemma_sub_holds(bytes, q, flags, 2, 3);
    lemma_sub_holds(bytes, q, flags, 3, 4);
    assert(flags.subrange(0, 1) =~= seq![x.atlas]);
    assert(flags.subrange(1, 2) =~= seq![x.has_id]);
    assert(flags.subrange(2, 3) =~= seq![x.has_path]);
    assert(flags.subrange(3, 4) =~= seq![x.has_parent]);

    lemma_u8_parses(bytes, st, "resource type"@, x.resource_type);
    let s1 = read_u8(bytes, st, "resource type"@)->Ok_0.1;
    lemma_i32_parses(bytes, s1, "resource slot"@, x.slot);
    let s2 = read_i32(bytes, s1, "resource slot"@)->Ok_0.1;
    lemma_i32_parses(bytes, s2, "resource width"@, x.width);
    let s3 = read_i32(bytes, s2, "resource width"@)->Ok_0.1;
    lemma_i32_parses(bytes, s3, "resource height"@, x.height);
    let s4 = read_i32(bytes, s3, "resource height"@)->Ok_0.1;
    lemma_i32_parses(bytes, s4, "resource x"@, x.x);
    let s5 = read_i32(bytes, s4, "resource x"@)->Ok_0.1;
    lemma_i32_parses(bytes, s5, "resource y"@, x.y);
    let s6 = read_i32(bytes, s5, "resource y"@)->Ok_0.1;
    lemma_i32_parses(bytes, s6, "resource atlas x"@, x.ax);
    let s7 = read_i32(bytes, s6, "resource atlas x"@)->Ok_0.1;
    lemma_i32_parses(bytes, s7, "resource atlas y"@, x.ay);
    let s8 = read_i32(bytes, s7, "resource atlas y"@)->Ok_0.1;
    lemma_i32_parses(bytes, s8, "resource atlas width"@, x.aw);
    let s9 = read_i32(bytes, s8, "resource atlas width"@)->Ok_0.1;
    lemma_i32_parses(bytes, s9, "resource atlas height"@, x.ah);
    let s10 = read_i32(bytes, s9, "resource atlas height"@)->Ok_0.1;
    lemma_i32_parses(bytes, s10, "resource columns"@, x.cols);
    let s11 = read_i32(bytes, s10, "resource columns"@)->Ok_0.1;
    lemma_i32_parses(bytes, s11, "resource rows"@, x.rows);
    let s12 = read_i32(bytes, s11, "resource rows"@)->Ok_0.1;
    lemma_u8_parses(bytes, s12, "resource atlas flag"@, x.atlas);
    let s13 = read_u8(bytes, s12, "resource atlas flag"@)->Ok_0.1;
    lemma_u8_parses(bytes, s13, "resource id flag"@, x.has_id);
    let s14 = read_u8(bytes, s13, "resource id flag"@)->Ok_0.1;
    lemma_u8_parses(bytes, s14, "resource path flag"@, x.has_path);
    let s15 = read_u8(bytes, s14, "resource path flag"@)->Ok_0.1;
    lemma_u8_parses(bytes, s15, "resource parent flag"@, x.has_parent);
    let s16 = read_u8(bytes, s15, "resource parent flag"@)->Ok_0.1;
    assert(s16.pos == p + fixed.len());
    lemma_opt_string_parses(bytes, s16, x.has_id, "resource id"@, limits, mode, x.id);
    if let Ok((_, s17)) = read_opt_string(bytes, s16, x.has_id, "resource id"@, limits, mode) {
        lemma_opt_string_parses(bytes, s17, x.has_path, "resource path"@, limits, mode, x.path);
        if let Ok((_, s18)) = read_opt_string(
            bytes,
            s17,
            x.has_path,
            "resource path"@,
            limits,
            mode,
        ) {
            lemma_opt_string_parses(
                bytes,
                s18,
                x.has_parent,
                "resource parent"@,
                limits,
                mode,
                x.parent,
            );
        }
    }
}

proof fn lemma_resources_prefix(rs: Seq<RawResourceView>, k: int) -> (t: Seq<u8>)
    requires
        0 <= k <= rs.len(),
    ensures
        raw_resources_wire(rs) == raw_resources_wire(rs.take(k)) + t,
    decreases rs.len(),
{
    if k == rs.len() {
        assert(rs.take(k) =~= rs);
        assert(raw_resources_wire(rs) =~= raw_resources_wire(rs) + Seq::<u8>::empty());
        Seq::empty()
    } else {
        let t0 = lemma_resources_prefix(rs.drop_last(), k);
        assert(rs.drop_last().take(k) =~= rs.take(k));
        let t = t0 + raw_resource_wire(rs.last());
        assert(raw_resources_wire(rs) =~= raw_resources_wire(rs.take(k)) + t);
        t
    }
}

proof fn lemma_resources_loop_parses(
    bytes: Seq<u8>,
    st: DecState,
    group: int,
    k: int,
    rs: Seq<RawResourceView>,
    limits: DecodeLimits,
    mode: DecodeMode,
    p0: int,
)
    requires
        0 <= k <= rs.len(),
        forall|i: int| 0 <= i < rs.len() ==> raw_resource_ok(#[trigger] rs[i]),
        holds_at(bytes, p0, raw_resources_wire(rs)),
        st.pos == p0 + raw_resources_wire(rs.take(k)).len(),
    ensures
        parsed(
            resources_loop(bytes, st, group, k, rs.len() as int, rs.take(k), limits, mode),
            rs,
            p0 + raw_resources_wire(rs).len(),
        ),
    decreases rs.len() - k,
{
    if k >= rs.len() {
        assert(rs.take(k) =~= rs);
    } else {
        let st1 = set_context(
            st,
            DecodeEntry::Resource { group: group as usize, resource: k as usize },
            "resource type"@,
        );
        let t = lemma_resources_prefix(rs, k + 1);
        lemma_split(bytes, p0, raw_resources_wire(rs.take(k + 1)), t);
        assert(rs.take(k + 1).drop_last() =~= rs.take(k));
        lemma_split(bytes, p0, raw_resources_wire(rs.take(k)), raw_resource_wire(rs[k]));
        lemma_resource_parses(bytes, st1, limits, mode, rs[k]);
        if let Ok((y, s2)) = read_resource(bytes, st1, limits, mode) {
            assert(rs.take(k).push(y) =~= rs.take(k + 1));
            lemma_resources_loop_parses(bytes, s2, group, k + 1, rs, limits, mode, p0);
        }
    }
}

/// The head that decoding a group record reads.
pub open spec fn head_of(g: RawGroupView) -> GroupHead {
    GroupHead {
        group_type: g.group_type,
        resolution: g.resolution,
        subgroup_count: g.subgroups.len() as int,
        resource_count: g.resources.len() as int,
        has_id: g.has_id,
        has_parent: g.has_parent,
        id: g.id,
        parent: g.parent,
    }
}

proof fn lemma_group_head_parses(
    bytes: Seq<u8>,
    st: DecState,
    limits: DecodeLimits,
    mode: DecodeMode,
    g: RawGroupView,
)
    requires
        raw_group_ok(g),
        holds_at(bytes, st.pos, group_head_wire(head_of(g))),
    ensures
        parsed(
            read_group_head(bytes, st, limits, mode),
            head_of(g),
            st.pos + group_head_wire(head_of(g)).len(),
        ),
{
    let h = head_of(g);
    let p = st.pos;
    let f1 = seq![h.group_type];
    let f2 = f1 + le_i32(h.resolution);
    let f3 = f2 + le_i32(h.subgroup_count as i32);
    let f4 = f3 + le_i32(h.resource_count as i32);
    let flags = seq![h.has_id, h.has_parent];
    let f5 = f4 + flags;
    let a = opt_str_wire(h.has_id, h.id);
    let b = opt_str_wire(h.has_parent, h.parent);
    lemma_split(bytes, p, f5 + a, b);
    lemma_split(bytes, p, f5, a);
    lemma_split(bytes, p, f4, flags);
    lemma_split(bytes, p, f3, le_i32(h.resource_count as i32));
    lemma_split(bytes, p, f2, le_i32(h.subgroup_count as i32));
    lemma_split(bytes, p, f1, le_i32(h.resolution));
    lemma_le_i32(h.resolution, 0, 0, 0, 0);
    lemma_le_i32(h.subgroup_count as i32, 0, 0, 0, 0);
    lemma_le_i32(h.resource_count as i32, 0, 0, 0, 0);
    let q = p + f4.len();
    lemma_sub_holds(bytes, q, flags, 0, 1);
    lemma_sub_holds(bytes, q, flags, 1, 2);
    assert(flags.subrange(0, 1) =~= seq![h.has_id]);
    assert(flags.subrange(1, 2) =~= seq![h.has_parent]);

    lemma_u8_parses(bytes, st, "group type"@, h.group_type);
    let s1 = read_u8(bytes, st, "group type"@)->Ok_0.1;
    lemma_i32_parses(bytes, s1, "group resolution"@, h.resolution);
    let s2 = read_i32(bytes, s1, "group resolution"@)->Ok_0.1;
    lemma_count_parses(
        bytes,
        s2,
        "subgroup count"@,
        limits.max_subgroups_per_group,
        h.subgroup_count,
    );
    if let Ok((_, s3)) = read_count(
        bytes,
        s2,
        "subgroup count"@,
        limits.max_subgroups_per_group,
    ) {
        lemma_count_parses(
            bytes,
            s3,
            "resource count"@,
            limits.max_resources_per_group,
            h.resource_count,
        );
        if let Ok((_, s4)) = read_count(
            bytes,
            s3,
            "resource count"@,
            limits.max_resources_per_group,
        ) {
            if let Ok(s5) = crate::binary::parse::charge_entries(s4, h.subgroup_count, limits) {
                if let Ok(s6) = crate::binary::parse::charge_entries(s5, h.resource_count, limits) {
                    lemma_u8_parses(bytes, s6, "group id flag"@, h.has_id);
                    let s7 = read_u8(bytes, s6, "group id flag"@)->Ok_0.1;
                    lemma_u8_parses(bytes, s7, "group parent flag"@, h.has_parent);
                    let s8 = read_u8(bytes, s7, "group parent flag"@)->Ok_0.1;
                    lemma_opt_string_parses(bytes, s8, h.has_id, "group id"@, limits, mode, h.id);
                    if let Ok((_, s9)) = read_opt_string(
                        bytes,
                        s8,
                        h.has_id,
                        "group id"@,
                        limits,
                        mode,
                    ) {
                        lemma_opt_string_parses(
                            bytes,
                            s9,
                            h.has_parent,
                            "group parent"@,
                            limits,
                            mode,
                            h.parent,
                        );
                    }
                }
            }
        }
    }
}

proof fn lemma_group_parses(
    bytes: Seq<u8>,
    st: DecState,
    group: int,
    limits: DecodeLimits,
    mode: DecodeMode,
    g: RawGroupView,
)
    requires
        raw_group_ok(g),
        holds_at(bytes, st.pos, raw_group_wire(g)),
    ensures
        parsed(read_group(bytes, st, group, limits, mode), g, st.pos + raw_group_wire(g).len()),
{
    let hw = crate::binary::format::raw_group_head_wire(g);
    assert(group_head_wire(head_of(g)) == hw);
    let sw = raw_subgroups_wire(g.subgroups);
    let rw = raw_resources_wire(g.resources);
    lemma_split(bytes, st.pos, hw + sw, rw);
    lemma_split(bytes, st.pos, hw, sw);
    lemma_group_head_parses(bytes, st, limits, mode, g);
    if let Ok((h, s1)) = read_group_head(bytes, st, limits, mode) {
        if let Ok(s2) = crate::binary::parse::allocate(
            s1,
            h.subgroup_count,
            mode.subgroup_record_size,
            "subgroup records"@,
            limits,
        ) {
            assert(g.subgroups.take(0) =~= Seq::<RawSubgroupView>::empty());
            lemma_subgroups_loop_parses(bytes, s2, group, 0, g.subgroups, limits, mode, s2.pos);
            if let Ok((subs, s3)) = subgroups_loop(
                bytes,
                s2,
                group,
                0,
                h.subgroup_count,
                Seq::empty(),
                limits,
                mode,
            ) {
                if let Ok(s4) = crate::binary::parse::allocate(
                    s3,
                    h.resource_count,
                    mode.resource_record_size,
                    "resource records"@,
                    limits,
                ) {
                    assert(g.resources.take(0) =~= Seq::<RawResourceView>::empty());
                    lemma_resources_loop_parses(
                        bytes,
                        s4,
                        group,
                        0,
                        g.resources,
                        limits,
                        mode,
                        s4.pos,
                    );
                }
            }
        }
    }
}

proof fn lemma_groups_prefix(gs: Seq<RawGroupView>, k: int) -> (t: Seq<u8>)
    requires
        0 <= k <= gs.len(),
    ensures
        raw_groups_wire(gs) == raw_groups_wire(gs.take(k)) + t,
    decreases gs.len(),
{
    if k == gs.len() {
        assert(gs.take(k) =~= gs);
        assert(raw_groups_wire(gs) =~= raw_groups_wire(gs) + Seq::<u8>::empty());
        Seq::empty()
    } else {
        let t0 = lemma_groups_prefix(gs.drop_last(), k);
        assert(gs.drop_last().take(k) =~= gs.take(k));
        let t = t0 + raw_group_wire(gs.last());
        assert(raw_groups_wire(gs) =~= raw_groups_wire(gs.take(k)) + t);
        t
    }
}

#[verifier::rlimit(40)]
proof fn lemma_groups_loop_parses(
    bytes: Seq<u8>,
    st: DecState,
    i: int,
    gs: Seq<RawGroupView>,
    limits: DecodeLimits,
    mode: DecodeMode,
    p0: int,
)
    requires
        0 <= i <= gs.len(),
        forall|k: int| 0 <= k < gs.len() ==> raw_group_ok(#[trigger] gs[k]),
        holds_at(bytes, p0, raw_groups_wire(gs)),
        st.pos == p0 + raw_groups_wire(gs.take(i)).len(),
    ensures
        parsed(
            groups_loop(bytes, st, i, gs.len() as int, gs.take(i), limits, mode),
            gs,
            p0 + raw_groups_wire(gs).len(),
        ),
    decreases gs.len() - i,
{
    if i >= gs.len() {
        assert(gs.take(i) =~= gs);
    } else {
        let st1 = set_context(st, DecodeEntry::Group(i as usize), "group type"@);
        let t = lemma_groups_prefix(gs, i + 1);
        lemma_split(bytes, p0, raw_groups_wire(gs.take(i + 1)), t);
        assert(gs.take(i + 1).drop_last() =~= gs.take(i));
        lemma_split(bytes, p0, raw_groups_wire(gs.take(i)), raw_group_wire(gs[i]));
        lemma_group_parses(bytes, st1, i, limits, mode, gs[i]);
        if let Ok((y, s2)) = read_group(bytes, st1, i, limits, mode) {
            assert(gs.take(i).push(y) =~= gs.take(i + 1));
            lemma_groups_loop_parses(bytes, s2, i + 1, gs, limits, mode, p0);
        }
    }
}

proof fn lemma_document_parses(
    m: RawManifestView,
    rest: Seq<u8>,
    limits: DecodeLimits,
    mode: DecodeMode,
)
    requires
        raw_document_ok(m),
    ensures
        parsed(
            decode_document(raw_document_wire(m) + rest, limits, mode),
            m,
            raw_document_wire(m).len() as int,
        ),
{
    let w = raw_document_wire(m);
    let bytes = w + rest;
    let n = m.groups.len() as int;
    let gw = raw_groups_wire(m.groups);
    let f1 = le_i32(m.slot_count);
    let f2 = f1 + le_i32(n as i32);
    assert(bytes.subrange(0, w.len() as int) =~= w);
    lemma_split(bytes, 0, f2, gw);
    lemma_split(bytes, 0, f1, le_i32(n as i32));
    let st = set_context(
        crate::binary::parse::initial_state(),
        DecodeEntry::Document,
        "slot count"@,
    );
    lemma_i32_parses(bytes, st, "slot count"@, m.slot_count);
    let s1 = read_i32(bytes, st, "slot count"@)->Ok_0.1;
    lemma_count_parses(bytes, s1, "group count"@, limits.max_groups, n);
    if let Ok((_, s2)) = read_count(bytes, s1, "group count"@, limits.max_groups) {
        if let Ok(s3) = crate::binary::parse::charge_entries(s2, n, limits) {
            if let Ok(s4) = crate::binary::parse::allocate(
                s3,
                n,
                mode.group_record_size,
                "group records"@,
                limits,
            ) {
                assert(m.groups.take(0) =~= Seq::<RawGroupView>::empty());
                lemma_groups_loop_parses(bytes, s4, 0, m.groups, limits, mode, s4.pos);
            }
        }
    }
}

/// Decoding the bytes of a writable raw document gives that document back,
/// unless one of the decode limits stops it; the error then names that limit.
pub proof fn written_raw_document_decodes(m: RawManifestView, limits: DecodeLimits, mode: DecodeMode)
    requires
        raw_document_ok(m),
    ensures
        match decode_complete(raw_document_wire(m), limits, mode) {
            Ok(d) => d == m,
            Err(e) => is_limit_error(e.root()),
        },
{
    let w = raw_document_wire(m);
    lemma_document_parses(m, Seq::empty(), limits, mode);
    assert(w + Seq::<u8>::empty() =~= w);
    if let Err((e, _)) = decode_document(w, limits, mode) {
        assert(e.root() == e);
    }
}

/// Decoding a stream that starts with the bytes of a writable raw document
/// gives that document and stops right after it, whatever follows, unless one
/// of the decode limits stops it.
pub proof fn written_raw_document_decodes_from_stream(
    m: RawManifestView,
    rest: Seq<u8>,
    limits: DecodeLimits,
    mode: DecodeMode,
)
    requires
        raw_document_ok(m),
    ensures
        match decode_prefix(raw_document_wire(m) + rest, limits, mode) {
            Ok((d, n)) => d == m && n == raw_document_wire(m).len(),
            Err(e) => is_limit_error(e.root()),
        },
{
    let bytes = raw_document_wire(m) + rest;
    lemma_document_parses(m, rest, limits, mode);
    match decode_document(bytes, limits, mode) {
        Err((e, _)) => {
            assert(e.root() == e);
        },
        Ok((_, st)) => {
            assert(st.pos == raw_document_wire(m).len());
            assert(bytes.len() - st.pos == rest.len());
            let t = ErrorView::TrailingData { remaining: rest.len() as usize };
            assert(t.root() == t);
        },
    }
}

/// A complete decode refuses bytes after a written document: it reports how
/// many bytes remain, unless a decode limit stopped it first.
#[verifier::rlimit(30)]
pub proof fn trailing_bytes_are_refused(
    m: RawManifestView,
    rest: Seq<u8>,
    limits: DecodeLimits,
    mode: DecodeMode,
)
    requires
        raw_document_ok(m),
        rest.len() > 0,
    ensures
        match decode_complete(raw_document_wire(m) + rest, limits, mode) {
            Ok(_) => false,
            Err(e) => e.root() == (ErrorView::TrailingData { remaining: rest.len() as usize })
                || is_limit_error(e.root()),
        },
{
    let bytes = raw_document_wire(m) + rest;
    lemma_document_parses(m, rest, limits, mode);
    match decode_document(bytes, limits, mode) {
        Err((e, _)) => {
            assert(e.root() == e);
        },
        Ok((_, st)) => {
            assert(st.pos == raw_document_wire(m).len());
            assert(bytes.len() - st.pos == rest.len());
            let t = ErrorView::TrailingData { remaining: rest.len() as usize };
            assert(t.root() == t);
        },
    }
}

// ----- the semantic layer: converting what was written gives it back -----

/// A number stored with `0` for absent comes back as it was.
pub open spec fn keeps_zero_default(v: Option<u32>) -> bool {
    v != Some(0u32)
}

/// A number stored with `1` for absent comes back as it was.
pub open spec fn keeps_one_default(v: Option<u32>) -> bool {
    v != Some(1u32)
}

/// A coordinate comes back as it was: it is not the absent sentinel, and a
/// sprite, whose absent coordinates are written as `0`, has one.
pub open spec fn keeps_coordinate(v: Option<i32>, r: ResourceView) -> bool {
    &&& v != Some(ABSENT_COORDINATE)
    &&& r.is_sprite() ==> v is Some
}

/// The fields of a resource are in the form that decoding gives.
pub open spec fn resource_canonical(r: ResourceView) -> bool {
    &&& keeps_zero_default(r.width)
    &&& keeps_zero_default(r.height)
    &&& keeps_zero_default(r.ax)
    &&& keeps_zero_default(r.ay)
    &&& keeps_zero_default(r.aw)
    &&& keeps_zero_default(r.ah)
    &&& keeps_one_default(r.cols)
    &&& keeps_one_default(r.rows)
    &&& keeps_coordinate(r.x, r)
    &&& keeps_coordinate(r.y, r)
}

pub open spec fn group_canonical(g: GroupView) -> bool {
    &&& keeps_zero_default(g.resolution())
    &&& match g {
        GroupView::Composite(c) => forall|i: int|
            0 <= i < c.subgroups.len() ==> keeps_zero_default(#[trigger] c.subgroups[i].resolution),
        GroupView::Simple(s) => forall|i: int|
            0 <= i < s.resources.len() ==> resource_canonical(#[trigger] s.resources[i]),
    }
}

/// Every optional field of the document is in the form that decoding gives,
/// so that writing it and reading it back loses nothing.
pub open spec fn document_canonical(m: ManifestView) -> bool {
    forall|i: int| 0 <= i < m.groups.len() ==> group_canonical(#[trigger] m.groups[i])
}

proof fn lemma_text_round_trip(s: Seq<char>)
    ensures
        valid_utf8(encode_utf8(s)),
        decode_utf8(encode_utf8(s)) == s,
{
    vstd::utf8::encode_utf8_valid_utf8(s);
    vstd::utf8::encode_utf8_decode_utf8(s);
}

proof fn lemma_resource_converts(r: ResourceView)
    requires
        resource_ok(r),
        resource_canonical(r),
    ensures
        convert_resource(resource_to_raw(r)) == Ok::<ResourceView, ErrorView>(r),
{
    lemma_text_round_trip(r.id);
    lemma_text_round_trip(r.path);
    if r.parent is Some {
        lemma_text_round_trip(r.parent->0);
    }
    crate::types::lemma_type_byte_round_trip(r.resource_type, 0);
    let raw = resource_to_raw(r);
    assert(optional_coordinate(raw.x) == r.x);
    assert(optional_coordinate(raw.y) == r.y);
}

proof fn lemma_resources_convert(rs: Seq<ResourceView>)
    requires
        forall|i: int| 0 <= i < rs.len() ==> resource_ok(#[trigger] rs[i]),
        forall|i: int| 0 <= i < rs.len() ==> resource_canonical(#[trigger] rs[i]),
    ensures
        convert_resources(resources_to_raw(rs)) == Ok::<Seq<ResourceView>, ErrorView>(rs),
    decreases rs.len(),
{
    if rs.len() > 0 {
        let init = rs.drop_last();
        assert forall|i: int| 0 <= i < init.len() implies resource_ok(#[trigger] init[i])
            && resource_canonical(init[i]) by {
            assert(init[i] == rs[i]);
        }
        lemma_resources_convert(init);
        assert(resources_to_raw(rs).drop_last() =~= resources_to_raw(init));
        assert(resource_ok(rs[rs.len() - 1]) && resource_canonical(rs[rs.len() - 1]));
        lemma_resource_converts(rs.last());
        assert(init.push(rs.last()) =~= rs);
    } else {
        assert(rs =~= Seq::<ResourceView>::empty());
    }
}

proof fn lemma_subgroups_convert(subs: Seq<SubgroupView>)
    requires
        forall|i: int| 0 <= i < subs.len() ==> subgroup_ok(#[trigger] subs[i]),
        forall|i: int| 0 <= i < subs.len() ==> keeps_zero_default(#[trigger] subs[i].resolution),
    ensures
        convert_subgroups(subgroups_to_raw(subs)) == Ok::<Seq<SubgroupView>, ErrorView>(subs),
    decreases subs.len(),
{
    if subs.len() > 0 {
        let init = subs.drop_last();
        assert forall|i: int| 0 <= i < init.len() implies subgroup_ok(#[trigger] init[i])
            && keeps_zero_default(init[i].resolution) by {
            assert(init[i] == subs[i]);
        }
        lemma_subgroups_convert(init);
        assert(subgroups_to_raw(subs).drop_last() =~= subgroups_to_raw(init));
        let last = subs.last();
        assert(subgroup_ok(subs[subs.len() - 1]) && keeps_zero_default(
            subs[subs.len() - 1].resolution,
        ));
        lemma_text_round_trip(last.id);
        assert(init.push(last) =~= subs);
    } else {
        assert(subs =~= Seq::<SubgroupView>::empty());
    }
}

proof fn lemma_group_converts(g: GroupView)
    requires
        group_ok(g),
        group_canonical(g),
    ensures
        convert_group(group_to_raw(g)) == Ok::<GroupView, ErrorView>(g),
{
    lemma_text_round_trip(g.id());
    if g.parent() is Some {
        lemma_text_round_trip(g.parent()->0);
    }
    match g {
        GroupView::Composite(c) => {
            lemma_subgroups_convert(c.subgroups);
        },
        GroupView::Simple(s) => {
            lemma_resources_convert(s.resources);
        },
    }
}

proof fn lemma_groups_convert(gs: Seq<GroupView>)
    requires
        forall|i: int| 0 <= i < gs.len() ==> group_ok(#[trigger] gs[i]),
        forall|i: int| 0 <= i < gs.len() ==> group_canonical(#[trigger] gs[i]),
    ensures
        convert_groups(groups_to_raw(gs)) == Ok::<Seq<GroupView>, ErrorView>(gs),
    decreases gs.len(),
{
    if gs.len() > 0 {
        let init = gs.drop_last();
        assert forall|i: int| 0 <= i < init.len() implies group_ok(#[trigger] init[i])
            && group_canonical(init[i]) by {
            assert(init[i] == gs[i]);
        }
        lemma_groups_convert(init);
        assert(groups_to_raw(gs).drop_last() =~= groups_to_raw(init));
        assert(group_ok(gs[gs.len() - 1]) && group_canonical(gs[gs.len() - 1]));
        lemma_group_converts(gs.last());
        assert(init.push(gs.last()) =~= gs);
    } else {
        assert(gs =~= Seq::<GroupView>::empty());
    }
}

/// Converting the raw document that a writable, canonical semantic document
/// is written as gives that semantic document back.
pub proof fn written_document_converts(m: ManifestView)
    requires
        document_ok(m),
        document_canonical(m),
    ensures
        convert_manifest(manifest_to_raw(m)) == Ok::<ManifestView, ErrorView>(m),
{
    lemma_groups_convert(m.groups);
}

/// A running computation that has not failed, or failed on a limit.
pub open spec fn limited(r: Result<nat, ErrorView>) -> bool {
    r matches Err(e) ==> is_limit_error(e)
}

proof fn lemma_budget_subgroups_limited(subs: Seq<RawSubgroupView>, r: Result<nat, ErrorView>)
    requires
        limited(r),
    ensures
        limited(budget_subgroups(subs, r)),
    decreases subs.len(),
{
    if subs.len() > 0 {
        lemma_budget_subgroups_limited(subs.drop_last(), r);
    }
}

proof fn lemma_budget_resources_limited(rs: Seq<RawResourceView>, r: Result<nat, ErrorView>)
    requires
        limited(r),
    ensures
        limited(budget_resources(rs, r)),
    decreases rs.len(),
{
    if rs.len() > 0 {
        lemma_budget_resources_limited(rs.drop_last(), r);
    }
}

proof fn lemma_budget_groups_limited(
    gs: Seq<RawGroupView>,
    r: Result<nat, ErrorView>,
    sz: AllocSizes,
)
    requires
        limited(r),
    ensures
        limited(budget_groups(gs, r, sz)),
    decreases gs.len(),
{
    if gs.len() > 0 {
        let g = gs.last();
        let r0 = budget_groups(gs.drop_last(), r, sz);
        lemma_budget_groups_limited(gs.drop_last(), r, sz);
        let r1 = budget_records(r0, sz.raw_subgroup, g.subgroups.len());
        let r2 = budget_records(r1, sz.subgroup, g.subgroups.len());
        let r3 = budget_records(r2, sz.raw_resource, g.resources.len());
        let r4 = budget_records(r3, sz.resource, g.resources.len());
        let r5 = budget_opt(budget_opt(r4, g.id), g.parent);
        assert(limited(r5));
        lemma_budget_subgroups_limited(g.subgroups, r5);
        lemma_budget_resources_limited(g.resources, budget_subgroups(g.subgroups, r5));
    }
}

/// The allocation estimate of a raw document fails only on a limit.
proof fn lemma_semantic_budget_limited(m: RawManifestView, limit: usize, sz: AllocSizes)
    ensures
        limited(semantic_budget(m, limit, sz)),
{
    let start = budget_records(
        budget_records(Ok(0), sz.raw_group, m.groups.len()),
        sz.group,
        m.groups.len(),
    );
    lemma_budget_groups_limited(m.groups, start, sz);
}

/// Reading back the bytes of a writable, canonical semantic document gives
/// that document, unless one of the decode limits stops it; the error then
/// names that limit.
pub proof fn written_document_decodes(m: ManifestView, limits: DecodeLimits)
    requires
        document_ok(m),
        document_canonical(m),
    ensures
        match semantic_decode(document_wire(m), limits) {
            Ok(d) => d == m,
            Err(e) => is_limit_error(e.root()),
        },
{
    let raw = manifest_to_raw(m);
    crate::binary::canonical::lemma_document_len(m);
    written_raw_document_decodes(raw, limits, borrowed_mode());
    lemma_semantic_budget_limited(raw, limits.max_allocation_bytes, alloc_sizes::<&'static [u8]>());
    written_document_converts(m);
    if let Err(e) = semantic_budget(raw, limits.max_allocation_bytes, alloc_sizes::<&'static [u8]>()) {
        assert(e.root() == e);
    }
}

/// Reading a stream that starts with the bytes of a writable, canonical
/// semantic document gives that document, whatever follows, unless one of the
/// decode limits stops it.
pub proof fn written_document_decodes_from_stream(
    m: ManifestView,
    rest: Seq<u8>,
    limits: DecodeLimits,
)
    requires
        document_ok(m),
        document_canonical(m),
    ensures
        match semantic_decode_prefix(document_wire(m) + rest, limits) {
            Ok(d) => d == m,
            Err(e) => is_limit_error(e.root()),
        },
{
    let raw = manifest_to_raw(m);
    crate::binary::canonical::lemma_document_len(m);
    written_raw_document_decodes_from_stream(raw, rest, limits, owned_mode());
    lemma_semantic_budget_limited(raw, limits.max_allocation_bytes, alloc_sizes::<Vec<u8>>());
    written_document_converts(m);
    if let Err(e) = semantic_budget(raw, limits.max_allocation_bytes, alloc_sizes::<Vec<u8>>()) {
        assert(e.root() == e);
    }
}

// ----- a decoded semantic document is written back as it was read -----

/// Every sprite of the document has both coordinates. A sprite decoded from
/// the absent-coordinate sentinel has none, and is written back with `0`.
pub open spec fn sprites_have_coordinates(m: ManifestView) -> bool {
    forall|i: int, j: int|
        0 <= i < m.groups.len() && m.groups[i] is Simple && 0 <= j < m.groups[i]->Simple_0.resources.len()
            && (#[trigger] m.groups[i]->Simple_0.resources[j]).is_sprite() ==> m.groups[i]->Simple_0.resources[j].x is Some
            && m.groups[i]->Simple_0.resources[j].y is Some
}

proof fn lemma_text_back(b: Seq<u8>, field: Seq<char>)
    requires
        b.len() <= I32_MAX,
    ensures
        crate::raw::text(b, field) matches Ok(t) ==> crate::binary::canonical::text_ok(t),
{
    if valid_utf8(b) {
        vstd::utf8::decode_utf8_encode_utf8(b);
    }
}

proof fn lemma_converted_resource(r: RawResourceView, v: ResourceView)
    requires
        raw_resource_ok(r),
        convert_resource(r) == Ok::<ResourceView, ErrorView>(v),
    ensures
        resource_ok(v),
        keeps_zero_default(v.width) && keeps_zero_default(v.height) && keeps_zero_default(v.ax)
            && keeps_zero_default(v.ay) && keeps_zero_default(v.aw) && keeps_zero_default(v.ah),
        keeps_one_default(v.cols) && keeps_one_default(v.rows),
        v.x != Some(ABSENT_COORDINATE) && v.y != Some(ABSENT_COORDINATE),
{
    lemma_text_back(r.id->0, "resource id"@);
    lemma_text_back(r.path->0, "resource path"@);
    if r.parent is Some {
        lemma_text_back(r.parent->0, "resource parent"@);
    }
}

proof fn lemma_converted_resources(rs: Seq<RawResourceView>, vs: Seq<ResourceView>)
    requires
        forall|i: int| 0 <= i < rs.len() ==> raw_resource_ok(#[trigger] rs[i]),
        convert_resources(rs) == Ok::<Seq<ResourceView>, ErrorView>(vs),
    ensures
        vs.len() == rs.len(),
        forall|i: int| 0 <= i < vs.len() ==> resource_ok(#[trigger] vs[i]),
        forall|i: int|
            0 <= i < vs.len() ==> keeps_zero_default(#[trigger] vs[i].width) && keeps_zero_default(
                vs[i].height,
            ) && keeps_zero_default(vs[i].ax) && keeps_zero_default(vs[i].ay) && keeps_zero_default(
                vs[i].aw,
            ) && keeps_zero_default(vs[i].ah) && keeps_one_default(vs[i].cols) && keeps_one_default(
                vs[i].rows,
            ) && vs[i].x != Some(ABSENT_COORDINATE) && vs[i].y != Some(ABSENT_COORDINATE),
    decreases rs.len(),
{
    if rs.len() > 0 {
        let init = rs.drop_last();
        let prev = convert_resources(init)->Ok_0;
        assert forall|i: int| 0 <= i < init.len() implies raw_resource_ok(#[trigger] init[i]) by {
            assert(init[i] == rs[i]);
        }
        lemma_converted_resources(init, prev);
        let last = convert_resource(rs.last())->Ok_0;
        assert(raw_resource_ok(rs[rs.len() - 1]));
        lemma_converted_resource(rs.last(), last);
        assert(vs == prev.push(last));
        assert forall|i: int| 0 <= i < vs.len() implies resource_ok(#[trigger] vs[i]) by {
            if i < prev.len() {
                assert(vs[i] == prev[i]);
            }
        }
        assert forall|i: int|
            0 <= i < vs.len() implies keeps_zero_default(#[trigger] vs[i].width)
                && keeps_zero_default(vs[i].height) && keeps_zero_default(vs[i].ax)
                && keeps_zero_default(vs[i].ay) && keeps_zero_default(vs[i].aw)
                && keeps_zero_default(vs[i].ah) && keeps_one_default(vs[i].cols)
                && keeps_one_default(vs[i].rows) && vs[i].x != Some(ABSENT_COORDINATE) && vs[i].y
                != Some(ABSENT_COORDINATE) by {
            if i < prev.len() {
                assert(vs[i] == prev[i]);
            }
        }
    }
}

proof fn lemma_converted_subgroups(subs: Seq<RawSubgroupView>, vs: Seq<SubgroupView>)
    requires
        forall|i: int| 0 <= i < subs.len() ==> #[trigger] subs[i].id.len() <= I32_MAX,
        convert_subgroups(subs) == Ok::<Seq<SubgroupView>, ErrorView>(vs),
    ensures
        vs.len() == subs.len(),
        forall|i: int| 0 <= i < vs.len() ==> subgroup_ok(#[trigger] vs[i]),
        forall|i: int| 0 <= i < vs.len() ==> keeps_zero_default(#[trigger] vs[i].resolution),
    decreases subs.len(),
{
    if subs.len() > 0 {
        let init = subs.drop_last();
        let prev = convert_subgroups(init)->Ok_0;
        assert forall|i: int| 0 <= i < init.len() implies #[trigger] init[i].id.len() <= I32_MAX by {
            assert(init[i] == subs[i]);
        }
        lemma_converted_subgroups(init, prev);
        let last = crate::raw::convert_subgroup(subs.last())->Ok_0;
        assert(subs[subs.len() - 1].id.len() <= I32_MAX);
        lemma_text_back(subs.last().id, "subgroup id"@);
        assert(vs == prev.push(last));
        assert forall|i: int| 0 <= i < vs.len() implies subgroup_ok(#[trigger] vs[i])
            && keeps_zero_default(vs[i].resolution) by {
            if i < prev.len() {
                assert(vs[i] == prev[i]);
            }
        }
    }
}

proof fn lemma_converted_group(g: RawGroupView, v: GroupView)
    requires
        raw_group_ok(g),
        convert_group(g) == Ok::<GroupView, ErrorView>(v),
    ensures
        group_ok(v),
        keeps_zero_default(v.resolution()),
        match v {
            GroupView::Composite(c) => forall|i: int|
                0 <= i < c.subgroups.len() ==> keeps_zero_default(#[trigger] c.subgroups[i].resolution),
            GroupView::Simple(s) => forall|i: int|
                0 <= i < s.resources.len() ==> keeps_zero_default(#[trigger] s.resources[i].width)
                    && keeps_zero_default(s.resources[i].height) && keeps_zero_default(
                    s.resources[i].ax,
                ) && keeps_zero_default(s.resources[i].ay) && keeps_zero_default(
                    s.resources[i].aw,
                ) && keeps_zero_default(s.resources[i].ah) && keeps_one_default(
                    s.resources[i].cols,
                ) && keeps_one_default(s.resources[i].rows) && s.resources[i].x != Some(
                    ABSENT_COORDINATE,
                ) && s.resources[i].y != Some(ABSENT_COORDINATE),
        },
{
    lemma_text_back(g.id->0, "group id"@);
    if g.parent is Some {
        lemma_text_back(g.parent->0, "group parent"@);
    }
    if g.group_type == 1 {
        lemma_converted_subgroups(g.subgroups, convert_subgroups(g.subgroups)->Ok_0);
    } else {
        lemma_converted_resources(g.resources, convert_resources(g.resources)->Ok_0);
    }
}

proof fn lemma_converted_groups(gs: Seq<RawGroupView>, vs: Seq<GroupView>)
    requires
        forall|i: int| 0 <= i < gs.len() ==> raw_group_ok(#[trigger] gs[i]),
        convert_groups(gs) == Ok::<Seq<GroupView>, ErrorView>(vs),
    ensures
        vs.len() == gs.len(),
        forall|i: int| 0 <= i < vs.len() ==> group_ok(#[trigger] vs[i]),
        forall|i: int|
            0 <= i < vs.len() && #[trigger] sprite_free_canonical(vs[i]) ==> group_canonical(vs[i]),
    decreases gs.len(),
{
    if gs.len() > 0 {
        let init = gs.drop_last();
        let prev = convert_groups(init)->Ok_0;
        assert forall|i: int| 0 <= i < init.len() implies raw_group_ok(#[trigger] init[i]) by {
            assert(init[i] == gs[i]);
        }
        lemma_converted_groups(init, prev);
        let last = convert_group(gs.last())->Ok_0;
        assert(raw_group_ok(gs[gs.len() - 1]));
        lemma_converted_group(gs.last(), last);
        assert(vs == prev.push(last));
        assert forall|i: int| 0 <= i < vs.len() implies group_ok(#[trigger] vs[i]) by {
            if i < prev.len() {
                assert(vs[i] == prev[i]);
            }
        }
        assert forall|i: int|
            0 <= i < vs.len() && #[trigger] sprite_free_canonical(vs[i]) implies group_canonical(
            vs[i],
        ) by {
            if i < prev.len() {
                assert(vs[i] == prev[i]);
            } else {
                assert(vs[i] == last);
            }
        }
    }
}

/// The sprites of a simple group have both coordinates.
pub open spec fn sprite_free_canonical(g: GroupView) -> bool {
    match g {
        GroupView::Simple(s) => forall|j: int|
            0 <= j < s.resources.len() && (#[trigger] s.resources[j]).is_sprite()
                ==> s.resources[j].x is Some && s.resources[j].y is Some,
        GroupView::Composite(_) => true,
    }
}

/// A semantic document decoded from bytes can be written, and, when its
/// sprites have both coordinates, reading back what is written gives the
/// same document unless a decode limit stops it.
pub proof fn decoded_document_reads_back(bytes: Seq<u8>, limits: DecodeLimits, again: DecodeLimits)
    requires
        semantic_decode(bytes, limits) is Ok,
    ensures
        document_ok(semantic_decode(bytes, limits)->Ok_0),
        sprites_have_coordinates(semantic_decode(bytes, limits)->Ok_0) ==> match semantic_decode(
            document_wire(semantic_decode(bytes, limits)->Ok_0),
            again,
        ) {
            Ok(d) => d == semantic_decode(bytes, limits)->Ok_0,
            Err(e) => is_limit_error(e.root()),
        },
{
    let m = semantic_decode(bytes, limits)->Ok_0;
    let raw = decode_complete(bytes, limits, borrowed_mode())->Ok_0;
    decoded_raw_document_reencodes(bytes, limits, borrowed_mode());
    assert(convert_manifest(raw) == Ok::<ManifestView, ErrorView>(m));
    let groups = convert_groups(raw.groups)->Ok_0;
    lemma_converted_groups(raw.groups, groups);
    assert(m.groups == groups);
    if sprites_have_coordinates(m) {
        assert forall|i: int| 0 <= i < m.groups.len() implies group_canonical(
            #[trigger] m.groups[i],
        ) by {
            if m.groups[i] is Simple {
                let s = m.groups[i]->Simple_0;
                assert forall|j: int|
                    0 <= j < s.resources.len() && (#[trigger] s.resources[j]).is_sprite() implies s.resources[j].x is Some
                    && s.resources[j].y is Some by {
                    assert(m.groups[i]->Simple_0.resources[j] == s.resources[j]);
                }
            }
            assert(sprite_free_canonical(m.groups[i]));
        }
        written_document_decodes(m, again);
    }
}

/// A decode that gives a document with groups got as far as reserving their
/// records.
pub proof fn decoded_groups_were_reserved(bytes: Seq<u8>, limits: DecodeLimits, mode: DecodeMode)
    ensures
        decode_document(bytes, limits, mode) matches Ok((m, _)) && m.groups.len() > 0
            ==> reaches_group_records(bytes, limits, mode),
{
    if let Ok((m, s)) = decode_document(bytes, limits, mode) {
        let st = set_context(
            crate::binary::parse::initial_state(),
            DecodeEntry::Document,
            "slot count"@,
        );
        lemma_read_i32_reads(bytes, st, "slot count"@);
        let s1 = read_i32(bytes, st, "slot count"@)->Ok_0.1;
        lemma_read_count_reads(bytes, s1, "group count"@, limits.max_groups);
        let (n, s2) = read_count(bytes, s1, "group count"@, limits.max_groups)->Ok_0;
        let s3 = crate::binary::parse::charge_entries(s2, n, limits)->Ok_0;
        let s4 = crate::binary::parse::allocate(s3, n, mode.group_record_size, "group records"@, limits)->Ok_0;
        lemma_groups_loop_reads(bytes, s4, 0, n, Seq::empty(), limits, mode);
    }
}

/// When the raw document that a semantic document was decoded from is the
/// one that writing the semantic document gives, the semantic document is
/// written back as exactly the input bytes.
proof fn decoded_document_rewrites_its_bytes(bytes: Seq<u8>, limits: DecodeLimits)
    requires
        semantic_decode(bytes, limits) is Ok,
        manifest_to_raw(semantic_decode(bytes, limits)->Ok_0) == decode_complete(
            bytes,
            limits,
            borrowed_mode(),
        )->Ok_0,
    ensures
        document_wire(semantic_decode(bytes, limits)->Ok_0) == bytes,
        bytes.len() <= usize::MAX ==> crate::binary::canonical::document_len(
            semantic_decode(bytes, limits)->Ok_0,
        ) == Ok::<nat, ErrorView>(bytes.len()),
{
    let m = semantic_decode(bytes, limits)->Ok_0;
    decoded_raw_document_reencodes(bytes, limits, borrowed_mode());
    decoded_document_reads_back(bytes, limits, limits);
    crate::binary::canonical::lemma_document_len(m);
}

// ----- a decoded document is written back as the bytes it came from -----

proof fn lemma_text_bytes_back(b: Seq<u8>, field: Seq<char>)
    ensures
        crate::raw::text(b, field) matches Ok(t) ==> encode_utf8(t) == b,
{
    if valid_utf8(b) {
        vstd::utf8::decode_utf8_encode_utf8(b);
    }
}

proof fn lemma_resource_rewrites(r: RawResourceView, v: ResourceView)
    requires
        raw_resource_ok(r),
        convert_resource(r) == Ok::<ResourceView, ErrorView>(v),
        v.is_sprite() ==> v.x is Some && v.y is Some,
    ensures
        resource_to_raw(v) == r,
{
    lemma_text_bytes_back(r.id->0, "resource id"@);
    lemma_text_bytes_back(r.path->0, "resource path"@);
    if r.parent is Some {
        lemma_text_bytes_back(r.parent->0, "resource parent"@);
    }
    crate::types::lemma_type_byte_round_trip(v.resource_type, r.resource_type);
    assert(resource_to_raw(v) =~= r);
}

proof fn lemma_resources_rewrite(rs: Seq<RawResourceView>, vs: Seq<ResourceView>)
    requires
        forall|i: int| 0 <= i < rs.len() ==> raw_resource_ok(#[trigger] rs[i]),
        convert_resources(rs) == Ok::<Seq<ResourceView>, ErrorView>(vs),
        forall|j: int|
            0 <= j < vs.len() && (#[trigger] vs[j]).is_sprite() ==> vs[j].x is Some && vs[j].y is Some,
    ensures
        resources_to_raw(vs) == rs,
    decreases rs.len(),
{
    if rs.len() == 0 {
        assert(resources_to_raw(vs) =~= rs);
    } else {
        let init = rs.drop_last();
        let prev = convert_resources(init)->Ok_0;
        let last = convert_resource(rs.last())->Ok_0;
        assert(vs == prev.push(last));
        assert forall|i: int| 0 <= i < init.len() implies raw_resource_ok(#[trigger] init[i]) by {
            assert(init[i] == rs[i]);
        }
        assert forall|j: int|
            0 <= j < prev.len() && (#[trigger] prev[j]).is_sprite() implies prev[j].x is Some
            && prev[j].y is Some by {
            assert(prev[j] == vs[j]);
        }
        lemma_resources_rewrite(init, prev);
        assert(raw_resource_ok(rs[rs.len() - 1]));
        assert(vs[vs.len() - 1] == last);
        lemma_resource_rewrites(rs.last(), last);
        assert forall|i: int| 0 <= i < rs.len() implies resources_to_raw(vs)[i] == rs[i] by {
            if i < init.len() {
                assert(resources_to_raw(prev)[i] == init[i]);
            }
        }
        assert(resources_to_raw(vs) =~= rs);
    }
}

proof fn lemma_subgroups_rewrite(subs: Seq<RawSubgroupView>, vs: Seq<SubgroupView>)
    requires
        convert_subgroups(subs) == Ok::<Seq<SubgroupView>, ErrorView>(vs),
    ensures
        subgroups_to_raw(vs) == subs,
    decreases subs.len(),
{
    if subs.len() == 0 {
        assert(subgroups_to_raw(vs) =~= subs);
    } else {
        let init = subs.drop_last();
        let prev = convert_subgroups(init)->Ok_0;
        let last = crate::raw::convert_subgroup(subs.last())->Ok_0;
        assert(vs == prev.push(last));
        lemma_subgroups_rewrite(init, prev);
        lemma_text_bytes_back(subs.last().id, "subgroup id"@);
        assert(subgroup_to_raw(last) =~= subs.last());
        assert forall|i: int| 0 <= i < subs.len() implies subgroups_to_raw(vs)[i] == subs[i] by {
            if i < init.len() {
                assert(subgroups_to_raw(prev)[i] == init[i]);
            }
        }
        assert(subgroups_to_raw(vs) =~= subs);
    }
}

proof fn lemma_group_rewrites(g: RawGroupView, v: GroupView)
    requires
        raw_group_ok(g),
        convert_group(g) == Ok::<GroupView, ErrorView>(v),
        sprite_free_canonical(v),
    ensures
        group_to_raw(v) == g,
{
    lemma_text_bytes_back(g.id->0, "group id"@);
    if g.parent is Some {
        lemma_text_bytes_back(g.parent->0, "group parent"@);
    }
    if g.group_type == 1 {
        lemma_subgroups_rewrite(g.subgroups, convert_subgroups(g.subgroups)->Ok_0);
        assert(g.resources =~= Seq::<RawResourceView>::empty());
    } else {
        let vs = convert_resources(g.resources)->Ok_0;
        assert(v == GroupView::Simple(v->Simple_0));
        assert(v->Simple_0.resources == vs);
        lemma_resources_rewrite(g.resources, vs);
        assert(g.subgroups =~= Seq::<RawSubgroupView>::empty());
    }
    assert(group_to_raw(v) =~= g);
}

proof fn lemma_groups_rewrite(gs: Seq<RawGroupView>, vs: Seq<GroupView>)
    requires
        forall|i: int| 0 <= i < gs.len() ==> raw_group_ok(#[trigger] gs[i]),
        convert_groups(gs) == Ok::<Seq<GroupView>, ErrorView>(vs),
        forall|i: int| 0 <= i < vs.len() ==> sprite_free_canonical(#[trigger] vs[i]),
    ensures
        groups_to_raw(vs) == gs,
    decreases gs.len(),
{
    if gs.len() == 0 {
        assert(groups_to_raw(vs) =~= gs);
    } else {
        let init = gs.drop_last();
        let prev = convert_groups(init)->Ok_0;
        let last = convert_group(gs.last())->Ok_0;
        assert(vs == prev.push(last));
        assert forall|i: int| 0 <= i < init.len() implies raw_group_ok(#[trigger] init[i]) by {
            assert(init[i] == gs[i]);
        }
        assert forall|i: int| 0 <= i < prev.len() implies sprite_free_canonical(#[trigger] prev[i]) by {
            assert(prev[i] == vs[i]);
        }
        lemma_groups_rewrite(init, prev);
        assert(raw_group_ok(gs[gs.len() - 1]));
        assert(sprite_free_canonical(vs[vs.len() - 1]));
        lemma_group_rewrites(gs.last(), last);
        assert forall|i: int| 0 <= i < gs.len() implies groups_to_raw(vs)[i] == gs[i] by {
            if i < init.len() {
                assert(groups_to_raw(prev)[i] == init[i]);
            }
        }
        assert(groups_to_raw(vs) =~= gs);
    }
}

/// A semantic document decoded from bytes whose sprites all have both
/// coordinates is written back as exactly those bytes, and the encoder's
/// length computation gives their number.
pub proof fn decoded_document_is_rewritten_exactly(bytes: Seq<u8>, limits: DecodeLimits)
    requires
        semantic_decode(bytes, limits) is Ok,
        sprites_have_coordinates(semantic_decode(bytes, limits)->Ok_0),
    ensures
        document_wire(semantic_decode(bytes, limits)->Ok_0) == bytes,
        bytes.len() <= usize::MAX ==> crate::binary::canonical::document_len(
            semantic_decode(bytes, limits)->Ok_0,
        ) == Ok::<nat, ErrorView>(bytes.len()),
{
    let m = semantic_decode(bytes, limits)->Ok_0;
    let raw = decode_complete(bytes, limits, borrowed_mode())->Ok_0;
    decoded_raw_document_reencodes(bytes, limits, borrowed_mode());
    assert(convert_manifest(raw) == Ok::<ManifestView, ErrorView>(m));
    let groups = convert_groups(raw.groups)->Ok_0;
    assert(m.groups == groups);
    assert forall|i: int| 0 <= i < m.groups.len() implies sprite_free_canonical(
        #[trigger] m.groups[i],
    ) by {
        if m.groups[i] is Simple {
            let s = m.groups[i]->Simple_0;
            assert forall|j: int|
                0 <= j < s.resources.len() && (#[trigger] s.resources[j]).is_sprite() implies s.resources[j].x is Some
                && s.resources[j].y is Some by {
                assert(m.groups[i]->Simple_0.resources[j] == s.resources[j]);
            }
        }
    }
    lemma_groups_rewrite(raw.groups, groups);
    assert(manifest_to_raw(m) =~= raw);
    decoded_document_rewrites_its_bytes(bytes, limits);
}

// ----- bytes after a decoded document change nothing before them -----

proof fn lemma_take_ext(bytes: Seq<u8>, rest: Seq<u8>)
    ensures
        forall|st: DecState, len: int|
            0 <= st.pos && 0 <= len && st.pos + len <= bytes.len() ==> #[trigger] take(
                bytes + rest,
                st,
                len,
            ) == take(bytes, st, len),
{
    assert forall|st: DecState, len: int|
        0 <= st.pos && 0 <= len && st.pos + len <= bytes.len() implies #[trigger] take(
        bytes + rest,
        st,
        len,
    ) == take(bytes, st, len) by {
        assert((bytes + rest).subrange(st.pos, st.pos + len) =~= bytes.subrange(st.pos, st.pos + len));
    }
}

proof fn lemma_read_u8_ext(bytes: Seq<u8>, rest: Seq<u8>, st: DecState, field: Seq<char>)
    requires
        0 <= st.pos,
    ensures
        read_u8(bytes, st, field) is Ok ==> read_u8(bytes + rest, st, field) == read_u8(bytes, st, field),
{
    lemma_take_ext(bytes, rest);
}

proof fn lemma_read_i32_ext(bytes: Seq<u8>, rest: Seq<u8>, st: DecState, field: Seq<char>)
    requires
        0 <= st.pos,
    ensures
        read_i32(bytes, st, field) is Ok ==> read_i32(bytes + rest, st, field) == read_i32(bytes, st, field),
{
    lemma_take_ext(bytes, rest);
}

proof fn lemma_read_count_ext(bytes: Seq<u8>, rest: Seq<u8>, st: DecState, field: Seq<char>, limit: usize)
    requires
        0 <= st.pos,
    ensures
        read_count(bytes, st, field, limit) is Ok ==> read_count(bytes + rest, st, field, limit)
            == read_count(bytes, st, field, limit),
{
    lemma_read_i32_ext(bytes, rest, st, field);
}

proof fn lemma_read_opt_string_ext(
    bytes: Seq<u8>,
    rest: Seq<u8>,
    st: DecState,
    flag: u8,
    field: Seq<char>,
    limits: DecodeLimits,
    mode: DecodeMode,
)
    requires
        0 <= st.pos,
    ensures
        read_opt_string(bytes, st, flag, field, limits, mode) is Ok ==> read_opt_string(
            bytes + rest,
            st,
            flag,
            field,
            limits,
            mode,
        ) == read_opt_string(bytes, st, flag, field, limits, mode),
{
    lemma_read_i32_ext(bytes, rest, st, field);
    lemma_take_ext(bytes, rest);
    lemma_read_i32_reads(bytes, st, field);
}

proof fn lemma_read_resource_ext(
    bytes: Seq<u8>,
    rest: Seq<u8>,
    st: DecState,
    limits: DecodeLimits,
    mode: DecodeMode,
)
    requires
        0 <= st.pos,
    ensures
        read_resource(bytes, st, limits, mode) is Ok ==> read_resource(bytes + rest, st, limits, mode)
            == read_resource(bytes, st, limits, mode),
{
    if read_resource(bytes, st, limits, mode) is Ok {
        let b = bytes;
        lemma_read_u8_ext(b, rest, st, "resource type"@);
        lemma_read_u8_reads(b, st, "resource type"@);
        let s1 = read_u8(b, st, "resource type"@)->Ok_0.1;
        lemma_read_i32_ext(b, rest, s1, "resource slot"@);
        lemma_read_i32_reads(b, s1, "resource slot"@);
        let s2 = read_i32(b, s1, "resource slot"@)->Ok_0.1;
        lemma_read_i32_ext(b, rest, s2, "resource width"@);
        lemma_read_i32_reads(b, s2, "resource width"@);
        let s3 = read_i32(b, s2, "resource width"@)->Ok_0.1;
        lemma_read_i32_ext(b, rest, s3, "resource height"@);
        lemma_read_i32_reads(b, s3, "resource height"@);
        let s4 = read_i32(b, s3, "resource height"@)->Ok_0.1;
        lemma_read_i32_ext(b, rest, s4, "resource x"@);
        lemma_read_i32_reads(b, s4, "resource x"@);
        let s5 = read_i32(b, s4, "resource x"@)->Ok_0.1;
        lemma_read_i32_ext(b, rest, s5, "resource y"@);
        lemma_read_i32_reads(b, s5, "resource y"@);
        let s6 = read_i32(b, s5, "resource y"@)->Ok_0.1;
        lemma_read_i32_ext(b, rest, s6, "resource atlas x"@);
        lemma_read_i32_reads(b, s6, "resource atlas x"@);
        let s7 = read_i32(b, s6, "resource atlas x"@)->Ok_0.1;
        lemma_read_i32_ext(b, rest, s7, "resource atlas y"@);
        lemma_read_i32_reads(b, s7, "resource atlas y"@);
        let s8 = read_i32(b, s7, "resource atlas y"@)->Ok_0.1;
        lemma_read_i32_ext(b, rest, s8, "resource atlas width"@);
        lemma_read_i32_reads(b, s8, "resource atlas width"@);
        let s9 = read_i32(b, s8, "resource atlas width"@)->Ok_0.1;
        lemma_read_i32_ext(b, rest, s9, "resource atlas height"@);
        lemma_read_i32_reads(b, s9, "resource atlas height"@);
        let s10 = read_i32(b, s9, "resource atlas height"@)->Ok_0.1;
        lemma_read_i32_ext(b, rest, s10, "resource columns"@);
        lemma_read_i32_reads(b, s10, "resource columns"@);
        let s11 = read_i32(b, s10, "resource columns"@)->Ok_0.1;
        lemma_read_i32_ext(b, rest, s11, "resource rows"@);
        lemma_read_i32_reads(b, s11, "resource rows"@);
        let s12 = read_i32(b, s11, "resource rows"@)->Ok_0.1;
        lemma_read_u8_ext(b, rest, s12, "resource atlas flag"@);
        lemma_read_u8_reads(b, s12, "resource atlas flag"@);
        let s13 = read_u8(b, s12, "resource atlas flag"@)->Ok_0.1;
        lemma_read_u8_ext(b, rest, s13, "resource id flag"@);
        lemma_read_u8_reads(b, s13, "resource id flag"@);
        let (has_id, s14) = read_u8(b, s13, "resource id flag"@)->Ok_0;
        lemma_read_u8_ext(b, rest, s14, "resource path flag"@);
        lemma_read_u8_reads(b, s14, "resource path flag"@);
        let (has_path, s15) = read_u8(b, s14, "resource path flag"@)->Ok_0;
        lemma_read_u8_ext(b, rest, s15, "resource parent flag"@);
        lemma_read_u8_reads(b, s15, "resource parent flag"@);
        let (has_parent, s16) = read_u8(b, s15, "resource parent flag"@)->Ok_0;
        lemma_read_opt_string_ext(b, rest, s16, has_id, "resource id"@, limits, mode);
        lemma_read_opt_string_reads(b, s16, has_id, "resource id"@, limits, mode);
        let s17 = read_opt_string(b, s16, has_id, "resource id"@, limits, mode)->Ok_0.1;
        lemma_read_opt_string_ext(b, rest, s17, has_path, "resource path"@, limits, mode);
        lemma_read_opt_string_reads(b, s17, has_path, "resource path"@, limits, mode);
        let s18 = read_opt_string(b, s17, has_path, "resource path"@, limits, mode)->Ok_0.1;
        lemma_read_opt_string_ext(b, rest, s18, has_parent, "resource parent"@, limits, mode);
    }
}

proof fn lemma_read_string_ext(
    bytes: Seq<u8>,
    rest: Seq<u8>,
    st: DecState,
    field: Seq<char>,
    limits: DecodeLimits,
    mode: DecodeMode,
)
    requires
        0 <= st.pos,
    ensures
        read_string(bytes, st, field, limits, mode) is Ok ==> read_string(bytes + rest, st, field, limits, mode)
            == read_string(bytes, st, field, limits, mode),
{
    lemma_read_i32_ext(bytes, rest, st, field);
    lemma_take_ext(bytes, rest);
    lemma_read_i32_reads(bytes, st, field);
}

proof fn lemma_read_subgroup_ext(
    bytes: Seq<u8>,
    rest: Seq<u8>,
    st: DecState,
    limits: DecodeLimits,
    mode: DecodeMode,
)
    requires
        0 <= st.pos,
    ensures
        read_subgroup(bytes, st, limits, mode) is Ok ==> read_subgroup(bytes + rest, st, limits, mode)
            == read_subgroup(bytes, st, limits, mode),
{
    lemma_read_i32_ext(bytes, rest, st, "subgroup resolution"@);
    lemma_read_i32_reads(bytes, st, "subgroup resolution"@);
    if let Ok((_, s1)) = read_i32(bytes, st, "subgroup resolution"@) {
        lemma_read_string_ext(bytes, rest, s1, "subgroup id"@, limits, mode);
    }
}

proof fn lemma_subgroups_loop_ext(
    bytes: Seq<u8>,
    rest: Seq<u8>,
    st: DecState,
    group: int,
    j: int,
    n: int,
    acc: Seq<RawSubgroupView>,
    limits: DecodeLimits,
    mode: DecodeMode,
)
    requires
        0 <= st.pos,
    ensures
        subgroups_loop(bytes, st, group, j, n, acc, limits, mode) is Ok ==> subgroups_loop(
            bytes + rest,
            st,
            group,
            j,
            n,
            acc,
            limits,
            mode,
        ) == subgroups_loop(bytes, st, group, j, n, acc, limits, mode),
    decreases n - j,
{
    if j < n {
        let st1 = set_context(
            st,
            DecodeEntry::Subgroup { group: group as usize, subgroup: j as usize },
            "subgroup resolution"@,
        );
        lemma_read_subgroup_ext(bytes, rest, st1, limits, mode);
        lemma_read_subgroup_reads(bytes, st1, limits, mode);
        if let Ok((v, s2)) = read_subgroup(bytes, st1, limits, mode) {
            lemma_subgroups_loop_ext(bytes, rest, s2, group, j + 1, n, acc.push(v), limits, mode);
        }
    }
}

proof fn lemma_resources_loop_ext(
    bytes: Seq<u8>,
    rest: Seq<u8>,
    st: DecState,
    group: int,
    k: int,
    n: int,
    acc: Seq<RawResourceView>,
    limits: DecodeLimits,
    mode: DecodeMode,
)
    requires
        0 <= st.pos,
    ensures
        resources_loop(bytes, st, group, k, n, acc, limits, mode) is Ok ==> resources_loop(
            bytes + rest,
            st,
            group,
            k,
            n,
            acc,
            limits,
            mode,
        ) == resources_loop(bytes, st, group, k, n, acc, limits, mode),
    decreases n - k,
{
    if k < n {
        let st1 = set_context(
            st,
            DecodeEntry::Resource { group: group as usize, resource: k as usize },
            "resource type"@,
        );
        lemma_read_resource_ext(bytes, rest, st1, limits, mode);
        lemma_read_resource_reads(bytes, st1, limits, mode);
        if let Ok((v, s2)) = read_resource(bytes, st1, limits, mode) {
            lemma_resources_loop_ext(bytes, rest, s2, group, k + 1, n, acc.push(v), limits, mode);
        }
    }
}

proof fn lemma_read_group_head_ext(
    bytes: Seq<u8>,
    rest: Seq<u8>,
    st: DecState,
    limits: DecodeLimits,
    mode: DecodeMode,
)
    requires
        0 <= st.pos,
    ensures
        read_group_head(bytes, st, limits, mode) is Ok ==> read_group_head(bytes + rest, st, limits, mode)
            == read_group_head(bytes, st, limits, mode),
{
    if read_group_head(bytes, st, limits, mode) is Ok {
        let b = bytes;
        lemma_read_u8_ext(b, rest, st, "group type"@);
        lemma_read_u8_reads(b, st, "group type"@);
        let s1 = read_u8(b, st, "group type"@)->Ok_0.1;
        lemma_read_i32_ext(b, rest, s1, "group resolution"@);
        lemma_read_i32_reads(b, s1, "group resolution"@);
        let s2 = read_i32(b, s1, "group resolution"@)->Ok_0.1;
        lemma_read_count_ext(b, rest, s2, "subgroup count"@, limits.max_subgroups_per_group);
        lemma_read_count_reads(b, s2, "subgroup count"@, limits.max_subgroups_per_group);
        let (sc, s3) = read_count(b, s2, "subgroup count"@, limits.max_subgroups_per_group)->Ok_0;
        lemma_read_count_ext(b, rest, s3, "resource count"@, limits.max_resources_per_group);
        lemma_read_count_reads(b, s3, "resource count"@, limits.max_resources_per_group);
        let (rc, s4) = read_count(b, s3, "resource count"@, limits.max_resources_per_group)->Ok_0;
        let s5 = crate::binary::parse::charge_entries(s4, sc, limits)->Ok_0;
        let s6 = crate::binary::parse::charge_entries(s5, rc, limits)->Ok_0;
        lemma_read_u8_ext(b, rest, s6, "group id flag"@);
        lemma_read_u8_reads(b, s6, "group id flag"@);
        let (has_id, s7) = read_u8(b, s6, "group id flag"@)->Ok_0;
        lemma_read_u8_ext(b, rest, s7, "group parent flag"@);
        lemma_read_u8_reads(b, s7, "group parent flag"@);
        let (has_parent, s8) = read_u8(b, s7, "group parent flag"@)->Ok_0;
        lemma_read_opt_string_ext(b, rest, s8, has_id, "group id"@, limits, mode);
        lemma_read_opt_string_reads(b, s8, has_id, "group id"@, limits, mode);
        let s9 = read_opt_string(b, s8, has_id, "group id"@, limits, mode)->Ok_0.1;
        lemma_read_opt_string_ext(b, rest, s9, has_parent, "group parent"@, limits, mode);
    }
}

proof fn lemma_read_group_ext(
    bytes: Seq<u8>,
    rest: Seq<u8>,
    st: DecState,
    group: int,
    limits: DecodeLimits,
    mode: DecodeMode,
)
    requires
        0 <= st.pos,
    ensures
        read_group(bytes, st, group, limits, mode) is Ok ==> read_group(bytes + rest, st, group, limits, mode)
            == read_group(bytes, st, group, limits, mode),
{
    lemma_read_group_head_ext(bytes, rest, st, limits, mode);
    lemma_read_group_head_reads(bytes, st, limits, mode);
    if let Ok((h, s1)) = read_group_head(bytes, st, limits, mode) {
        if let Ok(s2) = crate::binary::parse::allocate(
            s1,
            h.subgroup_count,
            mode.subgroup_record_size,
            "subgroup records"@,
            limits,
        ) {
            lemma_subgroups_loop_ext(bytes, rest, s2, group, 0, h.subgroup_count, Seq::empty(), limits, mode);
            lemma_subgroups_loop_reads(bytes, s2, group, 0, h.subgroup_count, Seq::empty(), limits, mode);
            if let Ok((_, s3)) = subgroups_loop(
                bytes,
                s2,
                group,
                0,
                h.subgroup_count,
                Seq::empty(),
                limits,
                mode,
            ) {
                if let Ok(s4) = crate::binary::parse::allocate(
                    s3,
                    h.resource_count,
                    mode.resource_record_size,
                    "resource records"@,
                    limits,
                ) {
                    lemma_resources_loop_ext(
                        bytes,
                        rest,
                        s4,
                        group,
                        0,
                        h.resource_count,
                        Seq::empty(),
                        limits,
                        mode,
                    );
                }
            }
        }
    }
}

proof fn lemma_groups_loop_ext(
    bytes: Seq<u8>,
    rest: Seq<u8>,
    st: DecState,
    i: int,
    n: int,
    acc: Seq<RawGroupView>,
    limits: DecodeLimits,
    mode: DecodeMode,
)
    requires
        0 <= st.pos,
    ensures
        groups_loop(bytes, st, i, n, acc, limits, mode) is Ok ==> groups_loop(
            bytes + rest,
            st,
            i,
            n,
            acc,
            limits,
            mode,
        ) == groups_loop(bytes, st, i, n, acc, limits, mode),
    decreases n - i,
{
    if i < n {
        let st1 = set_context(st, DecodeEntry::Group(i as usize), "group type"@);
        lemma_read_group_ext(bytes, rest, st1, i, limits, mode);
        lemma_read_group_reads(bytes, st1, i, limits, mode);
        if let Ok((g, s2)) = read_group(bytes, st1, i, limits, mode) {
            lemma_groups_loop_ext(bytes, rest, s2, i + 1, n, acc.push(g), limits, mode);
        }
    }
}

/// Bytes after a decoded document change nothing of how it decodes.
proof fn lemma_decode_document_ext(bytes: Seq<u8>, rest: Seq<u8>, limits: DecodeLimits, mode: DecodeMode)
    ensures
        decode_document(bytes, limits, mode) is Ok ==> decode_document(bytes + rest, limits, mode)
            == decode_document(bytes, limits, mode),
{
    if decode_document(bytes, limits, mode) is Ok {
        let st = set_context(
            crate::binary::parse::initial_state(),
            DecodeEntry::Document,
            "slot count"@,
        );
        lemma_read_i32_ext(bytes, rest, st, "slot count"@);
        lemma_read_i32_reads(bytes, st, "slot count"@);
        let s1 = read_i32(bytes, st, "slot count"@)->Ok_0.1;
        lemma_read_count_ext(bytes, rest, s1, "group count"@, limits.max_groups);
        lemma_read_count_reads(bytes, s1, "group count"@, limits.max_groups);
        let (n, s2) = read_count(bytes, s1, "group count"@, limits.max_groups)->Ok_0;
        let s3 = crate::binary::parse::charge_entries(s2, n, limits)->Ok_0;
        let s4 = crate::binary::parse::allocate(s3, n, mode.group_record_size, "group records"@, limits)->Ok_0;
        lemma_groups_loop_ext(bytes, rest, s4, 0, n, Seq::empty(), limits, mode);
    }
}

/// A complete decode of a decoded document followed by more bytes refuses
/// them: the error is located at the end of the document, in the document
/// record, at its trailing bytes, and says how many bytes remain.
pub proof fn bytes_after_a_decoded_document_are_refused(
    bytes: Seq<u8>,
    rest: Seq<u8>,
    limits: DecodeLimits,
    mode: DecodeMode,
)
    requires
        decode_complete(bytes, limits, mode) is Ok,
        rest.len() > 0,
    ensures
        decode_complete(bytes + rest, limits, mode) == Err::<RawManifestView, ErrorView>(
            ErrorView::DecodeContext {
                offset: bytes.len() as u64,
                context: "document"@,
                field: "trailing bytes"@,
                source: Box::new(ErrorView::TrailingData { remaining: rest.len() as usize }),
            },
        ),
{
    lemma_decode_document_ext(bytes, rest, limits, mode);
}

// ----- wider limits keep a successful decode as it was -----

/// Every limit of `wide` is at least the same limit of `narrow`.
pub open spec fn wider(narrow: DecodeLimits, wide: DecodeLimits) -> bool {
    &&& narrow.max_groups <= wide.max_groups
    &&& narrow.max_subgroups_per_group <= wide.max_subgroups_per_group
    &&& narrow.max_resources_per_group <= wide.max_resources_per_group
    &&& narrow.max_total_entries <= wide.max_total_entries
    &&& narrow.max_string_bytes <= wide.max_string_bytes
    &&& narrow.max_total_string_bytes <= wide.max_total_string_bytes
    &&& narrow.max_allocation_bytes <= wide.max_allocation_bytes
}

proof fn lemma_read_opt_string_wide(
    bytes: Seq<u8>,
    st: DecState,
    flag: u8,
    field: Seq<char>,
    l1: DecodeLimits,
    l2: DecodeLimits,
    mode: DecodeMode,
)
    requires
        wider(l1, l2),
    ensures
        read_opt_string(bytes, st, flag, field, l1, mode) is Ok ==> read_opt_string(
            bytes,
            st,
            flag,
            field,
            l2,
            mode,
        ) == read_opt_string(bytes, st, flag, field, l1, mode),
        read_string(bytes, st, field, l1, mode) is Ok ==> read_string(bytes, st, field, l2, mode)
            == read_string(bytes, st, field, l1, mode),
{
}

proof fn lemma_read_resource_wide(
    bytes: Seq<u8>,
    st: DecState,
    l1: DecodeLimits,
    l2: DecodeLimits,
    mode: DecodeMode,
)
    requires
        wider(l1, l2),
    ensures
        read_resource(bytes, st, l1, mode) is Ok ==> read_resource(bytes, st, l2, mode)
            == read_resource(bytes, st, l1, mode),
{
    if read_resource(bytes, st, l1, mode) is Ok {
        let b = bytes;
        let s1 = read_u8(b, st, "resource type"@)->Ok_0.1;
        let s2 = read_i32(b, s1, "resource slot"@)->Ok_0.1;
        let s3 = read_i32(b, s2, "resource width"@)->Ok_0.1;
        let s4 = read_i32(b, s3, "resource height"@)->Ok_0.1;
        let s5 = read_i32(b, s4, "resource x"@)->Ok_0.1;
        let s6 = read_i32(b, s5, "resource y"@)->Ok_0.1;
        let s7 = read_i32(b, s6, "resource atlas x"@)->Ok_0.1;
        let s8 = read_i32(b, s7, "resource atlas y"@)->Ok_0.1;
        let s9 = read_i32(b, s8, "resource atlas width"@)->Ok_0.1;
        let s10 = read_i32(b, s9, "resource atlas height"@)->Ok_0.1;
        let s11 = read_i32(b, s10, "resource columns"@)->Ok_0.1;
        let s12 = read_i32(b, s11, "resource rows"@)->Ok_0.1;
        let s13 = read_u8(b, s12, "resource atlas flag"@)->Ok_0.1;
        let (has_id, s14) = read_u8(b, s13, "resource id flag"@)->Ok_0;
        let (has_path, s15) = read_u8(b, s14, "resource path flag"@)->Ok_0;
        let (has_parent, s16) = read_u8(b, s15, "resource parent flag"@)->Ok_0;
        lemma_read_opt_string_wide(b, s16, has_id, "resource id"@, l1, l2, mode);
        let s17 = read_opt_string(b, s16, has_id, "resource id"@, l1, mode)->Ok_0.1;
        lemma_read_opt_string_wide(b, s17, has_path, "resource path"@, l1, l2, mode);
        let s18 = read_opt_string(b, s17, has_path, "resource path"@, l1, mode)->Ok_0.1;
        lemma_read_opt_string_wide(b, s18, has_parent, "resource parent"@, l1, l2, mode);
    }
}

proof fn lemma_subgroups_loop_wide(
    bytes: Seq<u8>,
    st: DecState,
    group: int,
    j: int,
    n: int,
    acc: Seq<RawSubgroupView>,
    l1: DecodeLimits,
    l2: DecodeLimits,
    mode: DecodeMode,
)
    requires
        wider(l1, l2),
    ensures
        subgroups_loop(bytes, st, group, j, n, acc, l1, mode) is Ok ==> subgroups_loop(
            bytes,
            st,
            group,
            j,
            n,
            acc,
            l2,
            mode,
        ) == subgroups_loop(bytes, st, group, j, n, acc, l1, mode),
    decreases n - j,
{
    if j < n {
        let st1 = set_context(
            st,
            DecodeEntry::Subgroup { group: group as usize, subgroup: j as usize },
            "subgroup resolution"@,
        );
        if let Ok((_, s1)) = read_i32(bytes, st1, "subgroup resolution"@) {
            lemma_read_opt_string_wide(bytes, s1, 1, "subgroup id"@, l1, l2, mode);
        }
        if let Ok((v, s2)) = read_subgroup(bytes, st1, l1, mode) {
            lemma_subgroups_loop_wide(bytes, s2, group, j + 1, n, acc.push(v), l1, l2, mode);
        }
    }
}

proof fn lemma_resources_loop_wide(
    bytes: Seq<u8>,
    st: DecState,
    group: int,
    k: int,
    n: int,
    acc: Seq<RawResourceView>,
    l1: DecodeLimits,
    l2: DecodeLimits,
    mode: DecodeMode,
)
    requires
        wider(l1, l2),
    ensures
        resources_loop(bytes, st, group, k, n, acc, l1, mode) is Ok ==> resources_loop(
            bytes,
            st,
            group,
            k,
            n,
            acc,
            l2,
            mode,
        ) == resources_loop(bytes, st, group, k, n, acc, l1, mode),
    decreases n - k,
{
    if k < n {
        let st1 = set_context(
            st,
            DecodeEntry::Resource { group: group as usize, resource: k as usize },
            "resource type"@,
        );
        lemma_read_resource_wide(bytes, st1, l1, l2, mode);
        if let Ok((v, s2)) = read_resource(bytes, st1, l1, mode) {
            lemma_resources_loop_wide(bytes, s2, group, k + 1, n, acc.push(v), l1, l2, mode);
        }
    }
}

proof fn lemma_read_group_head_wide(
    bytes: Seq<u8>,
    st: DecState,
    l1: DecodeLimits,
    l2: DecodeLimits,
    mode: DecodeMode,
)
    requires
        wider(l1, l2),
    ensures
        read_group_head(bytes, st, l1, mode) is Ok ==> read_group_head(bytes, st, l2, mode)
            == read_group_head(bytes, st, l1, mode),
{
    if read_group_head(bytes, st, l1, mode) is Ok {
        let b = bytes;
        let s1 = read_u8(b, st, "group type"@)->Ok_0.1;
        let s2 = read_i32(b, s1, "group resolution"@)->Ok_0.1;
        let (sc, s3) = read_count(b, s2, "subgroup count"@, l1.max_subgroups_per_group)->Ok_0;
        let (rc, s4) = read_count(b, s3, "resource count"@, l1.max_resources_per_group)->Ok_0;
        let s5 = crate::binary::parse::charge_entries(s4, sc, l1)->Ok_0;
        let s6 = crate::binary::parse::charge_entries(s5, rc, l1)->Ok_0;
        let (has_id, s7) = read_u8(b, s6, "group id flag"@)->Ok_0;
        let (has_parent, s8) = read_u8(b, s7, "group parent flag"@)->Ok_0;
        lemma_read_opt_string_wide(b, s8, has_id, "group id"@, l1, l2, mode);
        let s9 = read_opt_string(b, s8, has_id, "group id"@, l1, mode)->Ok_0.1;
        lemma_read_opt_string_wide(b, s9, has_parent, "group parent"@, l1, l2, mode);
    }
}

proof fn lemma_read_group_wide(
    bytes: Seq<u8>,
    st: DecState,
    group: int,
    l1: DecodeLimits,
    l2: DecodeLimits,
    mode: DecodeMode,
)
    requires
        wider(l1, l2),
    ensures
        read_group(bytes, st, group, l1, mode) is Ok ==> read_group(bytes, st, group, l2, mode)
            == read_group(bytes, st, group, l1, mode),
{
    lemma_read_group_head_wide(bytes, st, l1, l2, mode);
    if let Ok((h, s1)) = read_group_head(bytes, st, l1, mode) {
        if let Ok(s2) = crate::binary::parse::allocate(
            s1,
            h.subgroup_count,
            mode.subgroup_record_size,
            "subgroup records"@,
            l1,
        ) {
            lemma_subgroups_loop_wide(bytes, s2, group, 0, h.subgroup_count, Seq::empty(), l1, l2, mode);
            if let Ok((_, s3)) = subgroups_loop(
                bytes,
                s2,
                group,
                0,
                h.subgroup_count,
                Seq::empty(),
                l1,
                mode,
            ) {
                if let Ok(s4) = crate::binary::parse::allocate(
                    s3,
                    h.resource_count,
                    mode.resource_record_size,
                    "resource records"@,
                    l1,
                ) {
                    lemma_resources_loop_wide(
                        bytes,
                        s4,
                        group,
                        0,
                        h.resource_count,
                        Seq::empty(),
                        l1,
                        l2,
                        mode,
                    );
                }
            }
        }
    }
}

proof fn lemma_groups_loop_wide(
    bytes: Seq<u8>,
    st: DecState,
    i: int,
    n: int,
    acc: Seq<RawGroupView>,
    l1: DecodeLimits,
    l2: DecodeLimits,
    mode: DecodeMode,
)
    requires
        wider(l1, l2),
    ensures
        groups_loop(bytes, st, i, n, acc, l1, mode) is Ok ==> groups_loop(bytes, st, i, n, acc, l2, mode)
            == groups_loop(bytes, st, i, n, acc, l1, mode),
    decreases n - i,
{
    if i < n {
        let st1 = set_context(st, DecodeEntry::Group(i as usize), "group type"@);
        lemma_read_group_wide(bytes, st1, i, l1, l2, mode);
        if let Ok((g, s2)) = read_group(bytes, st1, i, l1, mode) {
            lemma_groups_loop_wide(bytes, s2, i + 1, n, acc.push(g), l1, l2, mode);
        }
    }
}

proof fn lemma_decode_document_wide(bytes: Seq<u8>, l1: DecodeLimits, l2: DecodeLimits, mode: DecodeMode)
    requires
        wider(l1, l2),
    ensures
        decode_document(bytes, l1, mode) is Ok ==> decode_document(bytes, l2, mode)
            == decode_document(bytes, l1, mode),
{
    if decode_document(bytes, l1, mode) is Ok {
        let st = set_context(
            crate::binary::parse::initial_state(),
            DecodeEntry::Document,
            "slot count"@,
        );
        let s1 = read_i32(bytes, st, "slot count"@)->Ok_0.1;
        let (n, s2) = read_count(bytes, s1, "group count"@, l1.max_groups)->Ok_0;
        let s3 = crate::binary::parse::charge_entries(s2, n, l1)->Ok_0;
        let s4 = crate::binary::parse::allocate(s3, n, mode.group_record_size, "group records"@, l1)->Ok_0;
        lemma_groups_loop_wide(bytes, s4, 0, n, Seq::empty(), l1, l2, mode);
    }
}

/// Raising decode limits never turns a successful raw decode into a failure
/// and never changes what it gives.
pub proof fn wider_limits_keep_a_raw_decode(bytes: Seq<u8>, l1: DecodeLimits, l2: DecodeLimits, mode: DecodeMode)
    requires
        wider(l1, l2),
        decode_complete(bytes, l1, mode) is Ok,
    ensures
        decode_complete(bytes, l2, mode) == decode_complete(bytes, l1, mode),
{
    lemma_decode_document_wide(bytes, l1, l2, mode);
}

/// Raising decode limits never turns a successful semantic decode into a
/// failure and never changes what it gives.
pub proof fn wider_limits_keep_a_decode(bytes: Seq<u8>, l1: DecodeLimits, l2: DecodeLimits)
    requires
        wider(l1, l2),
        semantic_decode(bytes, l1) is Ok,
    ensures
        semantic_decode(bytes, l2) == semantic_decode(bytes, l1),
{
    lemma_decode_document_wide(bytes, l1, l2, borrowed_mode());
}

/// Raising decode limits never turns a successful stream decode into a
/// failure and never changes what it gives, raw or semantic.
pub proof fn wider_limits_keep_a_stream_decode(bytes: Seq<u8>, l1: DecodeLimits, l2: DecodeLimits)
    requires
        wider(l1, l2),
    ensures
        decode_prefix(bytes, l1, owned_mode()) is Ok ==> decode_prefix(bytes, l2, owned_mode())
            == decode_prefix(bytes, l1, owned_mode()),
        semantic_decode_prefix(bytes, l1) is Ok ==> semantic_decode_prefix(bytes, l2)
            == semantic_decode_prefix(bytes, l1),
{
    lemma_decode_document_wide(bytes, l1, l2, owned_mode());
}

// ----- every decode error is located inside the input -----

/// The read position and the offset of the field being read lie within the
/// input.
pub open spec fn in_input(bytes: Seq<u8>, st: DecState) -> bool {
    0 <= st.pos <= bytes.len() && 0 <= st.offset <= bytes.len()
}

/// Whatever a read gives, its state lies within the input, and an error it
/// meets is a cause rather than a location.
pub open spec fn stays_in_input<T>(bytes: Seq<u8>, r: Parse<T>) -> bool {
    match r {
        Ok((_, s)) => in_input(bytes, s),
        Err((e, s)) => in_input(bytes, s) && !e.is_context(),
    }
}

proof fn lemma_reads_in_input(
    bytes: Seq<u8>,
    st: DecState,
    field: Seq<char>,
    flag: u8,
    limit: usize,
    limits: DecodeLimits,
    mode: DecodeMode,
)
    ensures
        in_input(bytes, st) ==> stays_in_input(bytes, read_u8(bytes, st, field)),
        in_input(bytes, st) ==> stays_in_input(bytes, read_i32(bytes, st, field)),
        in_input(bytes, st) ==> stays_in_input(bytes, read_count(bytes, st, field, limit)),
        in_input(bytes, st) ==> stays_in_input(bytes, read_string(bytes, st, field, limits, mode)),
        in_input(bytes, st) ==> stays_in_input(
            bytes,
            read_opt_string(bytes, st, flag, field, limits, mode),
        ),
{
}

proof fn lemma_read_resource_in_input(bytes: Seq<u8>, st: DecState, limits: DecodeLimits, mode: DecodeMode)
    ensures
        in_input(bytes, st) ==> stays_in_input(bytes, read_resource(bytes, st, limits, mode)),
{
    if in_input(bytes, st) {
        let b = bytes;
        lemma_reads_in_input(b, st, "resource type"@, 0, 0, limits, mode);
        let s1 = read_u8(b, st, "resource type"@)->Ok_0.1;
        lemma_reads_in_input(b, s1, "resource slot"@, 0, 0, limits, mode);
        let s2 = read_i32(b, s1, "resource slot"@)->Ok_0.1;
        lemma_reads_in_input(b, s2, "resource width"@, 0, 0, limits, mode);
        let s3 = read_i32(b, s2, "resource width"@)->Ok_0.1;
        lemma_reads_in_input(b, s3, "resource height"@, 0, 0, limits, mode);
        let s4 = read_i32(b, s3, "resource height"@)->Ok_0.1;
        lemma_reads_in_input(b, s4, "resource x"@, 0, 0, limits, mode);
        let s5 = read_i32(b, s4, "resource x"@)->Ok_0.1;
        lemma_reads_in_input(b, s5, "resource y"@, 0, 0, limits, mode);
        let s6 = read_i32(b, s5, "resource y"@)->Ok_0.1;
        lemma_reads_in_input(b, s6, "resource atlas x"@, 0, 0, limits, mode);
        let s7 = read_i32(b, s6, "resource atlas x"@)->Ok_0.1;
        lemma_reads_in_input(b, s7, "resource atlas y"@, 0, 0, limits, mode);
        let s8 = read_i32(b, s7, "resource atlas y"@)->Ok_0.1;
        lemma_reads_in_input(b, s8, "resource atlas width"@, 0, 0, limits, mode);
        let s9 = read_i32(b, s8, "resource atlas width"@)->Ok_0.1;
        lemma_reads_in_input(b, s9, "resource atlas height"@, 0, 0, limits, mode);
        let s10 = read_i32(b, s9, "resource atlas height"@)->Ok_0.1;
        lemma_reads_in_input(b, s10, "resource columns"@, 0, 0, limits, mode);
        let s11 = read_i32(b, s10, "resource columns"@)->Ok_0.1;
        lemma_reads_in_input(b, s11, "resource rows"@, 0, 0, limits, mode);
        let s12 = read_i32(b, s11, "resource rows"@)->Ok_0.1;
        lemma_reads_in_input(b, s12, "resource atlas flag"@, 0, 0, limits, mode);
        let s13 = read_u8(b, s12, "resource atlas flag"@)->Ok_0.1;
        lemma_reads_in_input(b, s13, "resource id flag"@, 0, 0, limits, mode);
        let (has_id, s14) = read_u8(b, s13, "resource id flag"@)->Ok_0;
        lemma_reads_in_input(b, s14, "resource path flag"@, 0, 0, limits, mode);
        let (has_path, s15) = read_u8(b, s14, "resource path flag"@)->Ok_0;
        lemma_reads_in_input(b, s15, "resource parent flag"@, 0, 0, limits, mode);
        let (has_parent, s16) = read_u8(b, s15, "resource parent flag"@)->Ok_0;
        lemma_reads_in_input(b, s16, "resource id"@, has_id, 0, limits, mode);
        let s17 = read_opt_string(b, s16, has_id, "resource id"@, limits, mode)->Ok_0.1;
        lemma_reads_in_input(b, s17, "resource path"@, has_path, 0, limits, mode);
        let s18 = read_opt_string(b, s17, has_path, "resource path"@, limits, mode)->Ok_0.1;
        lemma_reads_in_input(b, s18, "resource parent"@, has_parent, 0, limits, mode);
    }
}

proof fn lemma_subgroups_loop_in_input(
    bytes: Seq<u8>,
    st: DecState,
    group: int,
    j: int,
    n: int,
    acc: Seq<RawSubgroupView>,
    limits: DecodeLimits,
    mode: DecodeMode,
)
    ensures
        in_input(bytes, st) ==> stays_in_input(
            bytes,
            subgroups_loop(bytes, st, group, j, n, acc, limits, mode),
        ),
    decreases n - j,
{
    if j < n && in_input(bytes, st) {
        let st1 = set_context(
            st,
            DecodeEntry::Subgroup { group: group as usize, subgroup: j as usize },
            "subgroup resolution"@,
        );
        lemma_reads_in_input(bytes, st1, "subgroup resolution"@, 0, 0, limits, mode);
        if let Ok((_, s1)) = read_i32(bytes, st1, "subgroup resolution"@) {
            lemma_reads_in_input(bytes, s1, "subgroup id"@, 0, 0, limits, mode);
        }
        if let Ok((v, s2)) = read_subgroup(bytes, st1, limits, mode) {
            lemma_subgroups_loop_in_input(bytes, s2, group, j + 1, n, acc.push(v), limits, mode);
        }
    }
}

proof fn lemma_resources_loop_in_input(
    bytes: Seq<u8>,
    st: DecState,
    group: int,
    k: int,
    n: int,
    acc: Seq<RawResourceView>,
    limits: DecodeLimits,
    mode: DecodeMode,
)
    ensures
        in_input(bytes, st) ==> stays_in_input(
            bytes,
            resources_loop(bytes, st, group, k, n, acc, limits, mode),
        ),
    decreases n - k,
{
    if k < n && in_input(bytes, st) {
        let st1 = set_context(
            st,
            DecodeEntry::Resource { group: group as usize, resource: k as usize },
            "resource type"@,
        );
        lemma_read_resource_in_input(bytes, st1, limits, mode);
        if let Ok((v, s2)) = read_resource(bytes, st1, limits, mode) {
            lemma_resources_loop_in_input(bytes, s2, group, k + 1, n, acc.push(v), limits, mode);
        }
    }
}

proof fn lemma_read_group_head_in_input(bytes: Seq<u8>, st: DecState, limits: DecodeLimits, mode: DecodeMode)
    ensures
        in_input(bytes, st) ==> stays_in_input(bytes, read_group_head(bytes, st, limits, mode)),
{
    if in_input(bytes, st) {
        let b = bytes;
        lemma_reads_in_input(b, st, "group type"@, 0, 0, limits, mode);
        let s1 = read_u8(b, st, "group type"@)->Ok_0.1;
        lemma_reads_in_input(b, s1, "group resolution"@, 0, 0, limits, mode);
        let s2 = read_i32(b, s1, "group resolution"@)->Ok_0.1;
        lemma_reads_in_input(b, s2, "subgroup count"@, 0, limits.max_subgroups_per_group, limits, mode);
        let (sc, s3) = read_count(b, s2, "subgroup count"@, limits.max_subgroups_per_group)->Ok_0;
        lemma_reads_in_input(b, s3, "resource count"@, 0, limits.max_resources_per_group, limits, mode);
        let (rc, s4) = read_count(b, s3, "resource count"@, limits.max_resources_per_group)->Ok_0;
        let s5 = crate::binary::parse::charge_entries(s4, sc, limits)->Ok_0;
        let s6 = crate::binary::parse::charge_entries(s5, rc, limits)->Ok_0;
        lemma_reads_in_input(b, s6, "group id flag"@, 0, 0, limits, mode);
        let (has_id, s7) = read_u8(b, s6, "group id flag"@)->Ok_0;
        lemma_reads_in_input(b, s7, "group parent flag"@, 0, 0, limits, mode);
        let (has_parent, s8) = read_u8(b, s7, "group parent flag"@)->Ok_0;
        lemma_reads_in_input(b, s8, "group id"@, has_id, 0, limits, mode);
        let s9 = read_opt_string(b, s8, has_id, "group id"@, limits, mode)->Ok_0.1;
        lemma_reads_in_input(b, s9, "group parent"@, has_parent, 0, limits, mode);
    }
}

proof fn lemma_read_group_in_input(
    bytes: Seq<u8>,
    st: DecState,
    group: int,
    limits: DecodeLimits,
    mode: DecodeMode,
)
    ensures
        in_input(bytes, st) ==> stays_in_input(bytes, read_group(bytes, st, group, limits, mode)),
{
    lemma_read_group_head_in_input(bytes, st, limits, mode);
    if let Ok((h, s1)) = read_group_head(bytes, st, limits, mode) {
        if let Ok(s2) = crate::binary::parse::allocate(
            s1,
            h.subgroup_count,
            mode.subgroup_record_size,
            "subgroup records"@,
            limits,
        ) {
            lemma_subgroups_loop_in_input(bytes, s2, group, 0, h.subgroup_count, Seq::empty(), limits, mode);
            if let Ok((_, s3)) = subgroups_loop(
                bytes,
                s2,
                group,
                0,
                h.subgroup_count,
                Seq::empty(),
                limits,
                mode,
            ) {
                if let Ok(s4) = crate::binary::parse::allocate(
                    s3,
                    h.resource_count,
                    mode.resource_record_size,
                    "resource records"@,
                    limits,
                ) {
                    lemma_resources_loop_in_input(
                        bytes,
                        s4,
                        group,
                        0,
                        h.resource_count,
                        Seq::empty(),
                        limits,
                        mode,
                    );
                }
            }
        }
    }
}

proof fn lemma_groups_loop_in_input(
    bytes: Seq<u8>,
    st: DecState,
    i: int,
    n: int,
    acc: Seq<RawGroupView>,
    limits: DecodeLimits,
    mode: DecodeMode,
)
    ensures
        in_input(bytes, st) ==> stays_in_input(bytes, groups_loop(bytes, st, i, n, acc, limits, mode)),
    decreases n - i,
{
    if i < n && in_input(bytes, st) {
        let st1 = set_context(st, DecodeEntry::Group(i as usize), "group type"@);
        lemma_read_group_in_input(bytes, st1, i, limits, mode);
        if let Ok((g, s2)) = read_group(bytes, st1, i, limits, mode) {
            lemma_groups_loop_in_input(bytes, s2, i + 1, n, acc.push(g), limits, mode);
        }
    }
}

proof fn lemma_decode_document_in_input(bytes: Seq<u8>, limits: DecodeLimits, mode: DecodeMode)
    ensures
        stays_in_input(bytes, decode_document(bytes, limits, mode)),
{
    let st = set_context(
        crate::binary::parse::initial_state(),
        DecodeEntry::Document,
        "slot count"@,
    );
    lemma_reads_in_input(bytes, st, "slot count"@, 0, 0, limits, mode);
    if let Ok((_, s1)) = read_i32(bytes, st, "slot count"@) {
        lemma_reads_in_input(bytes, s1, "group count"@, 0, limits.max_groups, limits, mode);
        if let Ok((n, s2)) = read_count(bytes, s1, "group count"@, limits.max_groups) {
            if let Ok(s3) = crate::binary::parse::charge_entries(s2, n, limits) {
                if let Ok(s4) = crate::binary::parse::allocate(
                    s3,
                    n,
                    mode.group_record_size,
                    "group records"@,
                    limits,
                ) {
                    lemma_groups_loop_in_input(bytes, s4, 0, n, Seq::empty(), limits, mode);
                }
            }
        }
    }
}

/// Every decode error is located: it names the record and the field being
/// read, at a byte offset within the input, around a cause that is not
/// itself a location.
pub proof fn decode_errors_are_located(bytes: Seq<u8>, limits: DecodeLimits, mode: DecodeMode)
    ensures
        decode_complete(bytes, limits, mode) matches Err(e) ==> (e matches ErrorView::DecodeContext {
            offset,
            source,
            ..
        } && offset <= bytes.len() && !(*source).is_context()),
        decode_prefix(bytes, limits, mode) matches Err(e) ==> (e matches ErrorView::DecodeContext {
            offset,
            source,
            ..
        } && offset <= bytes.len() && !(*source).is_context()),
{
    lemma_decode_document_in_input(bytes, limits, mode);
}

// ----- what a decode gives follows what it read -----

/// Each optional string of a raw document is present exactly when its flag
/// byte is 1.
pub open spec fn presence_follows_flags(m: RawManifestView) -> bool {
    &&& forall|i: int|
        0 <= i < m.groups.len() ==> ((#[trigger] m.groups[i]).has_id == 1) == (m.groups[i].id is Some)
            && (m.groups[i].has_parent == 1) == (m.groups[i].parent is Some)
    &&& forall|i: int, j: int|
        0 <= i < m.groups.len() && 0 <= j < m.groups[i].resources.len() ==> {
            let r = #[trigger] m.groups[i].resources[j];
            &&& (r.has_id == 1) == (r.id is Some)
            &&& (r.has_path == 1) == (r.path is Some)
            &&& (r.has_parent == 1) == (r.parent is Some)
        }
}

proof fn lemma_ok_presence(m: RawManifestView)
    requires
        raw_document_ok(m),
    ensures
        presence_follows_flags(m),
{
    assert forall|i: int, j: int|
        0 <= i < m.groups.len() && 0 <= j < m.groups[i].resources.len() implies {
            let r = #[trigger] m.groups[i].resources[j];
            &&& (r.has_id == 1) == (r.id is Some)
            &&& (r.has_path == 1) == (r.path is Some)
            &&& (r.has_parent == 1) == (r.parent is Some)
        } by {
        assert(raw_group_ok(m.groups[i]));
        assert(raw_resource_ok(m.groups[i].resources[j]));
    }
}

/// What a decode gives follows what it read: each optional string is present
/// exactly when its flag byte is 1, and the decode consumed exactly the
/// length that the encoder computes for the document it gives.
pub proof fn decoded_documents_follow_their_flags(bytes: Seq<u8>, limits: DecodeLimits, mode: DecodeMode)
    requires
        bytes.len() <= usize::MAX,
    ensures
        decode_prefix(bytes, limits, mode) matches Ok((m, n)) ==> presence_follows_flags(m)
            && raw_document_len(m) == Ok::<nat, ErrorView>(n as nat),
        decode_complete(bytes, limits, mode) matches Ok(m) ==> presence_follows_flags(m)
            && raw_document_len(m) == Ok::<nat, ErrorView>(bytes.len()),
{
    decoded_raw_prefix_reencodes(bytes, limits, mode);
    decoded_raw_document_reencodes(bytes, limits, mode);
    if let Ok((m, n)) = decode_prefix(bytes, limits, mode) {
        lemma_raw_document_len(m);
        lemma_ok_presence(m);
    }
    if let Ok(m) = decode_complete(bytes, limits, mode) {
        lemma_ok_presence(m);
    }
}

// ----- a complete document decodes the same way from a stream -----

/// A document that decodes completely from `bytes` decodes to the same
/// semantic document from the start of a stream that holds `bytes` and then
/// anything else, unless a limit of the stream decode stops it. A stream
/// decode charges the strings it copies, and its records own their strings,
/// so its allocation estimate is larger.
pub proof fn complete_document_decodes_from_stream(bytes: Seq<u8>, rest: Seq<u8>, limits: DecodeLimits)
    requires
        semantic_decode(bytes, limits) is Ok,
    ensures
        match semantic_decode_prefix(bytes + rest, limits) {
            Ok(d) => d == semantic_decode(bytes, limits)->Ok_0,
            Err(e) => is_limit_error(e.root()),
        },
{
    let raw = decode_complete(bytes, limits, borrowed_mode())->Ok_0;
    decoded_raw_document_reencodes(bytes, limits, borrowed_mode());
    written_raw_document_decodes_from_stream(raw, rest, limits, owned_mode());
    lemma_semantic_budget_limited(raw, limits.max_allocation_bytes, alloc_sizes::<Vec<u8>>());
    if let Err(e) = semantic_budget(raw, limits.max_allocation_bytes, alloc_sizes::<Vec<u8>>()) {
        assert(e.root() == e);
    }
}

// ----- each field of a resource comes from its own field -----

/// Converting a raw resource reads each semantic field from the raw field of
/// the same name: a number where `0` (or `1` for the grid) means absent, a
/// coordinate where the largest signed value means absent, strict flags, and
/// strings whose UTF-8 bytes are the raw bytes.
pub proof fn converted_resource_fields(r: RawResourceView)
    ensures
        convert_resource(r) matches Ok(v) ==> {
            &&& crate::types::type_of_byte(r.resource_type) == Some(v.resource_type)
            &&& r.slot >= 0 && v.slot == r.slot as u32
            &&& r.width >= 0 && v.width == (if r.width == 0 { None } else { Some(r.width as u32) })
            &&& r.height >= 0 && v.height == (if r.height == 0 { None } else { Some(r.height as u32) })
            &&& v.x == (if r.x == 0x7fff_ffff { None } else { Some(r.x) })
            &&& v.y == (if r.y == 0x7fff_ffff { None } else { Some(r.y) })
            &&& r.ax >= 0 && v.ax == (if r.ax == 0 { None } else { Some(r.ax as u32) })
            &&& r.ay >= 0 && v.ay == (if r.ay == 0 { None } else { Some(r.ay as u32) })
            &&& r.aw >= 0 && v.aw == (if r.aw == 0 { None } else { Some(r.aw as u32) })
            &&& r.ah >= 0 && v.ah == (if r.ah == 0 { None } else { Some(r.ah as u32) })
            &&& r.cols >= 0 && v.cols == (if r.cols == 1 { None } else { Some(r.cols as u32) })
            &&& r.rows >= 0 && v.rows == (if r.rows == 1 { None } else { Some(r.rows as u32) })
            &&& r.atlas <= 1 && v.atlas == (r.atlas == 1)
            &&& r.has_id == 1 && r.id == Some(encode_utf8(v.id))
            &&& r.has_path == 1 && r.path == Some(encode_utf8(v.path))
            &&& r.has_parent <= 1 && (r.has_parent == 1) == (v.parent is Some)
            &&& r.parent == (match v.parent {
                Some(p) => Some(encode_utf8(p)),
                None => None,
            })
        },
{
    if let Ok(v) = convert_resource(r) {
        lemma_text_bytes_back(r.id->0, "resource id"@);
        lemma_text_bytes_back(r.path->0, "resource path"@);
        if r.parent is Some {
            lemma_text_bytes_back(r.parent->0, "resource parent"@);
        }
    }
}

/// Writing a semantic resource puts each field in the raw field of the same
/// name: an absent number as `0` (`1` for the grid), an absent coordinate as
/// the largest signed value, or `0` for a sprite, and strings as UTF-8.
pub proof fn written_resource_fields(v: ResourceView)
    ensures
        ({
            let r = resource_to_raw(v);
            &&& crate::types::type_of_byte(r.resource_type) == Some(v.resource_type)
            &&& r.slot == v.slot as i32
            &&& r.width == (match v.width { Some(a) => a as i32, None => 0 })
            &&& r.height == (match v.height { Some(a) => a as i32, None => 0 })
            &&& r.x == (match v.x { Some(a) => a, None => if v.is_sprite() { 0 } else { 0x7fff_ffff } })
            &&& r.y == (match v.y { Some(a) => a, None => if v.is_sprite() { 0 } else { 0x7fff_ffff } })
            &&& r.ax == (match v.ax { Some(a) => a as i32, None => 0 })
            &&& r.ay == (match v.ay { Some(a) => a as i32, None => 0 })
            &&& r.aw == (match v.aw { Some(a) => a as i32, None => 0 })
            &&& r.ah == (match v.ah { Some(a) => a as i32, None => 0 })
            &&& r.cols == (match v.cols { Some(a) => a as i32, None => 1 })
            &&& r.rows == (match v.rows { Some(a) => a as i32, None => 1 })
            &&& r.atlas == (if v.atlas { 1u8 } else { 0u8 })
            &&& r.id == Some(encode_utf8(v.id)) && r.path == Some(encode_utf8(v.path))
            &&& r.parent == (match v.parent {
                Some(p) => Some(encode_utf8(p)),
                None => None,
            })
        }),
{
    crate::types::lemma_type_byte_round_trip(v.resource_type, 0);
}

proof fn lemma_convert_resources_each(rs: Seq<RawResourceView>)
    ensures
        convert_resources(rs) matches Ok(vs) ==> vs.len() == rs.len() && forall|t: int|
            0 <= t < rs.len() ==> convert_resource(#[trigger] rs[t]) == Ok::<ResourceView, ErrorView>(vs[t]),
    decreases rs.len(),
{
    if rs.len() > 0 {
        lemma_convert_resources_each(rs.drop_last());
        if let Ok(vs) = convert_resources(rs) {
            assert forall|t: int| 0 <= t < rs.len() implies convert_resource(#[trigger] rs[t])
                == Ok::<ResourceView, ErrorView>(vs[t]) by {
                if t < rs.len() - 1 {
                    assert(rs.drop_last()[t] == rs[t]);
                }
            }
        }
    }
}

proof fn lemma_convert_subgroups_each(subs: Seq<RawSubgroupView>)
    ensures
        convert_subgroups(subs) matches Ok(vs) ==> vs.len() == subs.len() && forall|t: int|
            0 <= t < subs.len() ==> crate::raw::convert_subgroup(#[trigger] subs[t])
                == Ok::<SubgroupView, ErrorView>(vs[t]),
    decreases subs.len(),
{
    if subs.len() > 0 {
        lemma_convert_subgroups_each(subs.drop_last());
        if let Ok(vs) = convert_subgroups(subs) {
            assert forall|t: int| 0 <= t < subs.len() implies crate::raw::convert_subgroup(#[trigger] subs[t])
                == Ok::<SubgroupView, ErrorView>(vs[t]) by {
                if t < subs.len() - 1 {
                    assert(subs.drop_last()[t] == subs[t]);
                }
            }
        }
    }
}

proof fn lemma_convert_groups_each(gs: Seq<RawGroupView>)
    ensures
        convert_groups(gs) matches Ok(vs) ==> vs.len() == gs.len() && forall|t: int|
            0 <= t < gs.len() ==> convert_group(#[trigger] gs[t]) == Ok::<GroupView, ErrorView>(vs[t]),
    decreases gs.len(),
{
    if gs.len() > 0 {
        lemma_convert_groups_each(gs.drop_last());
        if let Ok(vs) = convert_groups(gs) {
            assert forall|t: int| 0 <= t < gs.len() implies convert_group(#[trigger] gs[t])
                == Ok::<GroupView, ErrorView>(vs[t]) by {
                if t < gs.len() - 1 {
                    assert(gs.drop_last()[t] == gs[t]);
                }
            }
        }
    }
}

/// Converting a raw document keeps its records in order, one semantic
/// record for each raw one, and reads the slot count as it stands.
pub proof fn converted_document_fields(m: RawManifestView)
    ensures
        convert_manifest(m) matches Ok(v) ==> {
            &&& m.slot_count >= 0 && v.slot_count == m.slot_count as u32
            &&& v.groups.len() == m.groups.len()
            &&& forall|t: int| 0 <= t < m.groups.len() ==> convert_group(#[trigger] m.groups[t])
                == Ok::<GroupView, ErrorView>(v.groups[t])
        },
{
    lemma_convert_groups_each(m.groups);
}

/// Converting a raw group reads each semantic field from the raw field of the
/// same name: type `1` gives a composite group with one subgroup for each
/// raw subgroup and no resources, type `2` a simple group with one resource
/// for each raw resource and no subgroups; the resolution is absent when
/// `0`; the ID is required; the parent is present exactly when its flag is 1.
pub proof fn converted_group_fields(g: RawGroupView)
    ensures
        convert_group(g) matches Ok(v) ==> {
            &&& g.has_id == 1 && g.id == Some(encode_utf8(v.id()))
            &&& g.has_parent <= 1 && (g.has_parent == 1) == (v.parent() is Some)
            &&& g.parent == (match v.parent() {
                Some(p) => Some(encode_utf8(p)),
                None => None,
            })
            &&& g.resolution >= 0 && v.resolution() == (if g.resolution == 0 { None } else { Some(g.resolution as u32) })
            &&& (g.group_type == 1 || g.group_type == 2)
            &&& g.group_type == 1 ==> v is Composite && g.resources.len() == 0
                && v->Composite_0.subgroups.len() == g.subgroups.len() && forall|t: int|
                0 <= t < g.subgroups.len() ==> {
                    let sub = #[trigger] v->Composite_0.subgroups[t];
                    &&& g.subgroups[t].id == encode_utf8(sub.id)
                    &&& g.subgroups[t].resolution >= 0
                    &&& sub.resolution == (if g.subgroups[t].resolution == 0 { None } else { Some(g.subgroups[t].resolution as u32) })
                }
            &&& g.group_type == 2 ==> v is Simple && g.subgroups.len() == 0
                && v->Simple_0.resources.len() == g.resources.len() && forall|t: int|
                0 <= t < g.resources.len() ==> convert_resource(g.resources[t]) == Ok::<ResourceView, ErrorView>(
                    #[trigger] v->Simple_0.resources[t],
                )
        },
{
    if let Ok(v) = convert_group(g) {
        lemma_text_bytes_back(g.id->0, "group id"@);
        if g.parent is Some {
            lemma_text_bytes_back(g.parent->0, "group parent"@);
        }
        if g.group_type == 1 {
            lemma_convert_subgroups_each(g.subgroups);
            let vs = v->Composite_0.subgroups;
            assert forall|t: int| 0 <= t < g.subgroups.len() implies {
                let sub = #[trigger] vs[t];
                &&& g.subgroups[t].id == encode_utf8(sub.id)
                &&& g.subgroups[t].resolution >= 0
                &&& sub.resolution == (if g.subgroups[t].resolution == 0 { None } else { Some(g.subgroups[t].resolution as u32) })
            } by {
                assert(crate::raw::convert_subgroup(g.subgroups[t]) == Ok::<SubgroupView, ErrorView>(vs[t]));
                lemma_text_bytes_back(g.subgroups[t].id, "subgroup id"@);
            }
        } else {
            lemma_convert_resources_each(g.resources);
            let vs = v->Simple_0.resources;
            assert forall|t: int| 0 <= t < g.resources.len() implies convert_resource(g.resources[t])
                == Ok::<ResourceView, ErrorView>(#[trigger] vs[t]) by {
                assert(convert_resource(g.resources[t]) == Ok::<ResourceView, ErrorView>(vs[t]));
            }
        }
    }
}

/// Writing a semantic group and document puts each field in the raw field of
/// the same name: type `1` for a composite group and `2` for a simple one,
/// an absent resolution as `0`, the ID always, the parent with its flag, and
/// the records in order.
pub proof fn written_group_fields(m: ManifestView)
    ensures
        manifest_to_raw(m).slot_count == m.slot_count as i32,
        manifest_to_raw(m).groups.len() == m.groups.len(),
        forall|t: int| 0 <= t < m.groups.len() ==> {
            let v = #[trigger] m.groups[t];
            let g = manifest_to_raw(m).groups[t];
            &&& g.group_type == (if v is Composite { 1u8 } else { 2u8 })
            &&& g.resolution == (match v.resolution() { Some(a) => a as i32, None => 0 })
            &&& g.has_id == 1 && g.id == Some(encode_utf8(v.id()))
            &&& g.has_parent == (if v.parent() is Some { 1u8 } else { 0u8 })
            &&& g.parent == (match v.parent() {
                Some(p) => Some(encode_utf8(p)),
                None => None,
            })
            &&& v is Composite ==> g.resources.len() == 0 && g.subgroups.len() == v->Composite_0.subgroups.len()
                && forall|u: int| 0 <= u < g.subgroups.len() ==> {
                    let sub = #[trigger] v->Composite_0.subgroups[u];
                    g.subgroups[u].id == encode_utf8(sub.id) && g.subgroups[u].resolution == (match sub.resolution {
                        Some(a) => a as i32,
                        None => 0,
                    })
                }
            &&& v is Simple ==> g.subgroups.len() == 0 && g.resources.len() == v->Simple_0.resources.len()
                && forall|u: int| 0 <= u < g.resources.len() ==> g.resources[u] == resource_to_raw(
                    #[trigger] v->Simple_0.resources[u],
                )
        },
{
}

// ----- a decoded document keeps within the limits it was decoded with -----

/// An optional string is at most `max` bytes long.
pub open spec fn string_within(v: Option<Seq<u8>>, max: usize) -> bool {
    v matches Some(b) ==> b.len() <= max
}

pub open spec fn resource_within(r: RawResourceView, limits: DecodeLimits) -> bool {
    &&& string_within(r.id, limits.max_string_bytes)
    &&& string_within(r.path, limits.max_string_bytes)
    &&& string_within(r.parent, limits.max_string_bytes)
}

/// A group keeps within the per-group counts and the per-string length.
pub open spec fn group_within(g: RawGroupView, limits: DecodeLimits) -> bool {
    &&& g.subgroups.len() <= limits.max_subgroups_per_group
    &&& g.resources.len() <= limits.max_resources_per_group
    &&& string_within(g.id, limits.max_string_bytes)
    &&& string_within(g.parent, limits.max_string_bytes)
    &&& forall|t: int| 0 <= t < g.subgroups.len() ==> (#[trigger] g.subgroups[t]).id.len() <= limits.max_string_bytes
    &&& forall|t: int| 0 <= t < g.resources.len() ==> resource_within(#[trigger] g.resources[t], limits)
}

/// The number of records the groups hold below them.
pub open spec fn child_entries(gs: Seq<RawGroupView>) -> int {
    (crate::binary::format::subgroup_count(gs) + crate::binary::format::resource_count(gs)) as int
}

proof fn lemma_string_within(bytes: Seq<u8>, st: DecState, field: Seq<char>, limits: DecodeLimits, mode: DecodeMode)
    requires
        0 <= st.pos,
    ensures
        read_string(bytes, st, field, limits, mode) matches Ok((v, s)) ==> v.len() <= limits.max_string_bytes
            && s.entries == st.entries,
{
    if let Ok((n, s1)) = read_i32(bytes, st, field) {
        if n >= 0 && n <= limits.max_string_bytes && s1.strings + n <= usize::MAX && s1.strings + n
            <= limits.max_total_string_bytes {
            let s2 = DecState { strings: s1.strings + n, ..s1 };
            if let Ok(s3) = crate::binary::parse::charge_allocation(s2, crate::binary::parse::string_cost(mode, n as int), limits) {
                if let Ok((v, s)) = take(bytes, mark(s3, field), n as int) {
                    assert(v.len() == n);
                }
            }
        }
    }
}

proof fn lemma_opt_string_within(bytes: Seq<u8>, limits: DecodeLimits, mode: DecodeMode)
    ensures
        forall|st: DecState, flag: u8, field: Seq<char>|
            0 <= st.pos ==> (#[trigger] read_opt_string(bytes, st, flag, field, limits, mode) matches Ok((v, s))
                ==> string_within(v, limits.max_string_bytes) && s.entries == st.entries),
{
    assert forall|st: DecState, flag: u8, field: Seq<char>|
        0 <= st.pos ==> (#[trigger] read_opt_string(bytes, st, flag, field, limits, mode) matches Ok((v, s))
            ==> string_within(v, limits.max_string_bytes) && s.entries == st.entries) by {
        if 0 <= st.pos {
            lemma_string_within(bytes, st, field, limits, mode);
        }
    }
}

proof fn lemma_subgroups_loop_within(
    bytes: Seq<u8>,
    st: DecState,
    group: int,
    j: int,
    n: int,
    acc: Seq<RawSubgroupView>,
    limits: DecodeLimits,
    mode: DecodeMode,
)
    requires
        0 <= st.pos,
        j <= n,
        forall|t: int| 0 <= t < acc.len() ==> (#[trigger] acc[t]).id.len() <= limits.max_string_bytes,
    ensures
        subgroups_loop(bytes, st, group, j, n, acc, limits, mode) matches Ok((out, s)) ==> st.pos <= s.pos && s.entries
            == st.entries && out.len() == acc.len() + n - j && forall|t: int|
            0 <= t < out.len() ==> (#[trigger] out[t]).id.len() <= limits.max_string_bytes,
    decreases n - j,
{
    if j < n {
        let st1 = set_context(
            st,
            DecodeEntry::Subgroup { group: group as usize, subgroup: j as usize },
            "subgroup resolution"@,
        );
        if let Ok((sub, st2)) = read_subgroup(bytes, st1, limits, mode) {
            lemma_read_subgroup_reads(bytes, st1, limits, mode);
            let (res, sr) = read_i32(bytes, st1, "subgroup resolution"@)->Ok_0;
            lemma_string_within(bytes, sr, "subgroup id"@, limits, mode);
            assert(sub.id.len() <= limits.max_string_bytes && st2.entries == st1.entries);
            let next = acc.push(sub);
            assert forall|t: int| 0 <= t < next.len() implies (#[trigger] next[t]).id.len()
                <= limits.max_string_bytes by {
                if t < acc.len() {
                    assert(next[t] == acc[t]);
                }
            }
            lemma_subgroups_loop_within(bytes, st2, group, j + 1, n, next, limits, mode);
        }
    }
}

proof fn lemma_resources_loop_within(
    bytes: Seq<u8>,
    st: DecState,
    group: int,
    k: int,
    n: int,
    acc: Seq<RawResourceView>,
    limits: DecodeLimits,
    mode: DecodeMode,
)
    requires
        0 <= st.pos,
        k <= n,
        forall|t: int| 0 <= t < acc.len() ==> resource_within(#[trigger] acc[t], limits),
    ensures
        resources_loop(bytes, st, group, k, n, acc, limits, mode) matches Ok((out, s)) ==> st.pos <= s.pos && s.entries
            == st.entries && out.len() == acc.len() + n - k && forall|t: int|
            0 <= t < out.len() ==> resource_within(#[trigger] out[t], limits),
    decreases n - k,
{
    if k < n {
        let st1 = set_context(
            st,
            DecodeEntry::Resource { group: group as usize, resource: k as usize },
            "resource type"@,
        );
        lemma_opt_string_within(bytes, limits, mode);
        lemma_read_resource_reads(bytes, st1, limits, mode);
        if let Ok((r, st2)) = read_resource(bytes, st1, limits, mode) {
            assert(resource_within(r, limits) && st2.entries == st1.entries);
            let next = acc.push(r);
            assert forall|t: int| 0 <= t < next.len() implies resource_within(#[trigger] next[t], limits) by {
                if t < acc.len() {
                    assert(next[t] == acc[t]);
                }
            }
            lemma_resources_loop_within(bytes, st2, group, k + 1, n, next, limits, mode);
        }
    }
}

proof fn lemma_read_group_within(bytes: Seq<u8>, st: DecState, group: int, limits: DecodeLimits, mode: DecodeMode)
    requires
        0 <= st.pos,
    ensures
        read_group(bytes, st, group, limits, mode) matches Ok((g, s)) ==> st.pos <= s.pos && group_within(g, limits)
            && s.entries == st.entries + g.subgroups.len() + g.resources.len() && s.entries
            <= limits.max_total_entries,
{
    lemma_opt_string_within(bytes, limits, mode);
    lemma_read_group_head_reads(bytes, st, limits, mode);
    if let Ok((h, s1)) = read_group_head(bytes, st, limits, mode) {
        assert(h.subgroup_count <= limits.max_subgroups_per_group);
        assert(h.resource_count <= limits.max_resources_per_group);
        assert(string_within(h.id, limits.max_string_bytes) && string_within(h.parent, limits.max_string_bytes));
        assert(s1.entries == st.entries + h.subgroup_count + h.resource_count);
        assert(s1.entries <= limits.max_total_entries);
        if let Ok(s2) = crate::binary::parse::allocate(s1, h.subgroup_count, mode.subgroup_record_size, "subgroup records"@, limits) {
            lemma_subgroups_loop_within(bytes, s2, group, 0, h.subgroup_count, Seq::empty(), limits, mode);
            if let Ok((subs, s3)) = subgroups_loop(bytes, s2, group, 0, h.subgroup_count, Seq::empty(), limits, mode) {
                if let Ok(s4) = crate::binary::parse::allocate(s3, h.resource_count, mode.resource_record_size, "resource records"@, limits) {
                    lemma_resources_loop_within(bytes, s4, group, 0, h.resource_count, Seq::empty(), limits, mode);
                }
            }
        }
    }
}

proof fn lemma_groups_loop_within(
    bytes: Seq<u8>,
    st: DecState,
    i: int,
    n: int,
    acc: Seq<RawGroupView>,
    limits: DecodeLimits,
    mode: DecodeMode,
)
    requires
        0 <= st.pos,
        i <= n,
        forall|t: int| 0 <= t < acc.len() ==> group_within(#[trigger] acc[t], limits),
    ensures
        groups_loop(bytes, st, i, n, acc, limits, mode) matches Ok((out, s)) ==> out.len() == acc.len()
            + n - i && (forall|t: int| 0 <= t < out.len() ==> group_within(#[trigger] out[t], limits))
            && s.entries == st.entries + child_entries(out) - child_entries(acc) && (s.entries
            <= limits.max_total_entries || s.entries == st.entries),
    decreases n - i,
{
    if i < n {
        let st1 = set_context(st, DecodeEntry::Group(i as usize), "group type"@);
        lemma_read_group_within(bytes, st1, i, limits, mode);
        if let Ok((g, st2)) = read_group(bytes, st1, i, limits, mode) {
            let next = acc.push(g);
            assert(next.drop_last() == acc);
            assert forall|t: int| 0 <= t < next.len() implies group_within(#[trigger] next[t], limits) by {
                if t < acc.len() {
                    assert(next[t] == acc[t]);
                }
            }
            lemma_groups_loop_within(bytes, st2, i + 1, n, next, limits, mode);
        }
    }
}

/// A decoded document keeps within the limits it was decoded with: at most
/// `max_groups` groups, at most the per-group numbers of subgroups and
/// resources, no string longer than `max_string_bytes`, and at most
/// `max_total_entries` records in all.
pub proof fn decoded_documents_keep_within_their_limits(bytes: Seq<u8>, limits: DecodeLimits, mode: DecodeMode)
    ensures
        decode_prefix(bytes, limits, mode) matches Ok((m, _)) ==> {
            &&& m.groups.len() <= limits.max_groups
            &&& forall|t: int| 0 <= t < m.groups.len() ==> group_within(#[trigger] m.groups[t], limits)
            &&& m.groups.len() + child_entries(m.groups) <= limits.max_total_entries
        },
        decode_complete(bytes, limits, mode) matches Ok(m) ==> {
            &&& m.groups.len() <= limits.max_groups
            &&& forall|t: int| 0 <= t < m.groups.len() ==> group_within(#[trigger] m.groups[t], limits)
            &&& m.groups.len() + child_entries(m.groups) <= limits.max_total_entries
        },
{
    let st = set_context(crate::binary::parse::initial_state(), DecodeEntry::Document, "slot count"@);
    if let Ok((slot_count, s1)) = read_i32(bytes, st, "slot count"@) {
        if let Ok((n, s2)) = read_count(bytes, s1, "group count"@, limits.max_groups) {
            if let Ok(s3) = crate::binary::parse::charge_entries(s2, n, limits) {
                if let Ok(s4) = crate::binary::parse::allocate(s3, n, mode.group_record_size, "group records"@, limits) {
                    lemma_groups_loop_within(bytes, s4, 0, n, Seq::empty(), limits, mode);
                    assert(child_entries(Seq::<RawGroupView>::empty()) == 0);
                }
            }
        }
    }
}

} // verus!
