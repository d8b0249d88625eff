//! The NEWTON wire format, stated over the raw model.
use crate::error::ErrorView;
use crate::raw::{RawGroupView, RawManifestView, RawResourceView, RawSubgroupView};
use vstd::prelude::*;

verus! {

pub const I32_MAX: usize = 0x7fff_ffff;

/// Size of the document header: slot count and group count.
pub const DOCUMENT_HEADER_SIZE: usize = 8;

/// Size of the fixed part of a group record.
pub const GROUP_FIXED_SIZE: usize = 15;

/// Size of the fixed part of a subgroup record.
pub const SUBGROUP_FIXED_SIZE: usize = 4;

/// Size of the fixed part of a resource record.
pub const RESOURCE_FIXED_SIZE: usize = 49;

/// The four little-endian bytes of a signed 32-bit value.
pub open spec fn le_i32(v: i32) -> Seq<u8> {
    let u = v as u32;
    seq![(u & 0xff) as u8, ((u >> 8) & 0xff) as u8, ((u >> 16) & 0xff) as u8, ((u >> 24) & 0xff) as u8]
}

/// The signed 32-bit value stored little-endian in four bytes.
pub open spec fn i32_from_le(b0: u8, b1: u8, b2: u8, b3: u8) -> i32 {
    ((b0 as u32) | ((b1 as u32) << 8) | ((b2 as u32) << 16) | ((b3 as u32) << 24)) as i32
}

/// Writing a value and reading it back gives the value; reading four bytes
/// and writing the value back gives the bytes.
pub proof fn lemma_le_i32(v: i32, b0: u8, b1: u8, b2: u8, b3: u8)
    ensures
        le_i32(v).len() == 4,
        i32_from_le(le_i32(v)[0], le_i32(v)[1], le_i32(v)[2], le_i32(v)[3]) == v,
        le_i32(i32_from_le(b0, b1, b2, b3)) == seq![b0, b1, b2, b3],
{
    let u = v as u32;
    assert((((u & 0xff) as u8 as u32) | ((((u >> 8) & 0xff) as u8 as u32) << 8) | ((((u >> 16)
        & 0xff) as u8 as u32) << 16) | ((((u >> 24) & 0xff) as u8 as u32) << 24)) as i32 == v)
        by (bit_vector)
        requires
            u == v as u32,
    ;
    let w = (b0 as u32) | ((b1 as u32) << 8) | ((b2 as u32) << 16) | ((b3 as u32) << 24);
    let x = w as i32;
    assert(((x as u32) & 0xff) as u8 == b0 && (((x as u32) >> 8) & 0xff) as u8 == b1 && (((
    x as u32) >> 16) & 0xff) as u8 == b2 && (((x as u32) >> 24) & 0xff) as u8 == b3)
        by (bit_vector)
        requires
            w == (b0 as u32) | ((b1 as u32) << 8) | ((b2 as u32) << 16) | ((b3 as u32) << 24),
            x == w as i32,
    ;
    assert(le_i32(x) =~= seq![b0, b1, b2, b3]);
}

/// A length-prefixed byte string.
pub open spec fn str_wire(s: Seq<u8>) -> Seq<u8> {
    le_i32(s.len() as i32) + s
}

/// A string tail, present only when its flag byte is exactly `1`.
pub open spec fn opt_str_wire(flag: u8, value: Option<Seq<u8>>) -> Seq<u8> {
    if flag == 1 {
        match value {
            Some(s) => str_wire(s),
            None => Seq::empty(),
        }
    } else {
        Seq::empty()
    }
}

pub open spec fn raw_subgroup_wire(s: RawSubgroupView) -> Seq<u8> {
    le_i32(s.resolution) + str_wire(s.id)
}

/// The fixed 49 bytes of a resource record: type byte, eleven little-endian
/// numbers, then the atlas and presence bytes.
pub open spec fn raw_resource_fixed(r: RawResourceView) -> Seq<u8> {
    seq![r.resource_type] + le_i32(r.slot) + le_i32(r.width) + le_i32(r.height) + le_i32(r.x)
        + le_i32(r.y) + le_i32(r.ax) + le_i32(r.ay) + le_i32(r.aw) + le_i32(r.ah) + le_i32(r.cols)
        + le_i32(r.rows) + seq![r.atlas, r.has_id, r.has_path, r.has_parent]
}

/// A resource record: the fixed part, then the string tails.
pub open spec fn raw_resource_wire(r: RawResourceView) -> Seq<u8> {
    raw_resource_fixed(r) + opt_str_wire(r.has_id, r.id) + opt_str_wire(r.has_path, r.path)
        + opt_str_wire(r.has_parent, r.parent)
}

pub open spec fn raw_subgroups_wire(subs: Seq<RawSubgroupView>) -> Seq<u8>
    decreases subs.len(),
{
    if subs.len() == 0 {
        Seq::empty()
    } else {
        raw_subgroups_wire(subs.drop_last()) + raw_subgroup_wire(subs.last())
    }
}

pub open spec fn raw_resources_wire(rs: Seq<RawResourceView>) -> Seq<u8>
    decreases rs.len(),
{
    if rs.len() == 0 {
        Seq::empty()
    } else {
        raw_resources_wire(rs.drop_last()) + raw_resource_wire(rs.last())
    }
}

/// The fixed header of a group record followed by its optional strings.
pub open spec fn raw_group_head_wire(g: RawGroupView) -> Seq<u8> {
    seq![g.group_type] + le_i32(g.resolution) + le_i32(g.subgroups.len() as i32) + le_i32(
        g.resources.len() as i32,
    ) + seq![g.has_id, g.has_parent] + opt_str_wire(g.has_id, g.id) + opt_str_wire(
        g.has_parent,
        g.parent,
    )
}

pub open spec fn raw_group_wire(g: RawGroupView) -> Seq<u8> {
    raw_group_head_wire(g) + raw_subgroups_wire(g.subgroups) + raw_resources_wire(g.resources)
}

pub open spec fn raw_groups_wire(gs: Seq<RawGroupView>) -> Seq<u8>
    decreases gs.len(),
{
    if gs.len() == 0 {
        Seq::empty()
    } else {
        raw_groups_wire(gs.drop_last()) + raw_group_wire(gs.last())
    }
}

/// The bytes of a complete raw document.
pub open spec fn raw_document_wire(m: RawManifestView) -> Seq<u8> {
    le_i32(m.slot_count) + le_i32(m.groups.len() as i32) + raw_groups_wire(m.groups)
}

// ----- which raw documents can be written -----

/// A presence flag agrees with its string, and the string length fits the
/// signed 32-bit prefix.
pub open spec fn opt_str_ok(flag: u8, value: Option<Seq<u8>>) -> bool {
    &&& (flag == 1) == (value is Some)
    &&& value is Some ==> value->0.len() <= I32_MAX
}

pub open spec fn raw_resource_ok(r: RawResourceView) -> bool {
    &&& opt_str_ok(r.has_id, r.id)
    &&& opt_str_ok(r.has_path, r.path)
    &&& opt_str_ok(r.has_parent, r.parent)
}

pub open spec fn raw_group_ok(g: RawGroupView) -> bool {
    &&& g.subgroups.len() <= I32_MAX
    &&& g.resources.len() <= I32_MAX
    &&& opt_str_ok(g.has_id, g.id)
    &&& opt_str_ok(g.has_parent, g.parent)
    &&& forall|i: int| 0 <= i < g.subgroups.len() ==> #[trigger] g.subgroups[i].id.len() <= I32_MAX
    &&& forall|i: int| 0 <= i < g.resources.len() ==> raw_resource_ok(#[trigger] g.resources[i])
}

/// Every count, flag and string of the document can be written.
pub open spec fn raw_document_ok(m: RawManifestView) -> bool {
    &&& m.groups.len() <= I32_MAX
    &&& forall|i: int| 0 <= i < m.groups.len() ==> raw_group_ok(#[trigger] m.groups[i])
}

// ----- the length computation, step by step -----

/// Add `n` bytes to a running length, failing when it leaves `usize`.
pub open spec fn add_len(r: Result<nat, ErrorView>, n: nat, field: Seq<char>) -> Result<
    nat,
    ErrorView,
> {
    match r {
        Ok(acc) => if acc + n <= usize::MAX {
            Ok((acc + n) as nat)
        } else {
            Err(ErrorView::LengthOverflow { field })
        },
        Err(e) => Err(e),
    }
}

/// Add a part whose own length computation may have failed.
pub open spec fn add_part(r: Result<nat, ErrorView>, part: Result<nat, ErrorView>, field: Seq<char>) -> Result<
    nat,
    ErrorView,
> {
    match r {
        Ok(_) => match part {
            Ok(n) => add_len(r, n, field),
            Err(e) => Err(e),
        },
        Err(e) => Err(e),
    }
}

/// Fail with `e` unless `ok` holds.
pub open spec fn check(r: Result<nat, ErrorView>, ok: bool, e: ErrorView) -> Result<nat, ErrorView> {
    match r {
        Ok(acc) => if ok {
            Ok(acc)
        } else {
            Err(e)
        },
        Err(x) => Err(x),
    }
}

/// Encoded length of a length-prefixed byte string.
pub open spec fn string_len(s: Seq<u8>) -> Result<nat, ErrorView> {
    if s.len() <= I32_MAX {
        Ok(4 + s.len())
    } else {
        Err(ErrorView::LengthOverflow { field: "string"@ })
    }
}

/// Encoded length of an optional string tail.
pub open spec fn opt_string_len(flag: u8, value: Option<Seq<u8>>, field: Seq<char>) -> Result<
    nat,
    ErrorView,
> {
    if flag == 1 && value is Some {
        string_len(value->0)
    } else if flag != 1 && value is None {
        Ok(0)
    } else {
        Err(ErrorView::InconsistentPresence { field, flag, has_value: value is Some })
    }
}

pub open spec fn raw_subgroups_len(subs: Seq<RawSubgroupView>, r: Result<nat, ErrorView>) -> Result<
    nat,
    ErrorView,
>
    decreases subs.len(),
{
    if subs.len() == 0 {
        r
    } else {
        add_part(
            add_len(raw_subgroups_len(subs.drop_last(), r), 4, "raw document"@),
            string_len(subs.last().id),
            "raw document"@,
        )
    }
}

pub open spec fn raw_resource_len(res: RawResourceView, r: Result<nat, ErrorView>) -> Result<
    nat,
    ErrorView,
> {
    let r = add_len(r, 49, "raw document"@);
    let r = add_part(r, opt_string_len(res.has_id, res.id, "resource id"@), "raw document"@);
    let r = add_part(r, opt_string_len(res.has_path, res.path, "resource path"@), "raw document"@);
    add_part(r, opt_string_len(res.has_parent, res.parent, "resource parent"@), "raw document"@)
}

pub open spec fn raw_resources_len(rs: Seq<RawResourceView>, r: Result<nat, ErrorView>) -> Result<
    nat,
    ErrorView,
>
    decreases rs.len(),
{
    if rs.len() == 0 {
        r
    } else {
        raw_resource_len(rs.last(), raw_resources_len(rs.drop_last(), r))
    }
}

pub open spec fn raw_group_head_len(g: RawGroupView, r: Result<nat, ErrorView>) -> Result<
    nat,
    ErrorView,
> {
    let r = check(
        r,
        g.subgroups.len() <= I32_MAX,
        ErrorView::LengthOverflow { field: "subgroup"@ },
    );
    let r = check(
        r,
        g.resources.len() <= I32_MAX,
        ErrorView::LengthOverflow { field: "resource"@ },
    );
    let r = add_len(r, 15, "raw document"@);
    let r = add_part(r, opt_string_len(g.has_id, g.id, "group id"@), "raw document"@);
    add_part(r, opt_string_len(g.has_parent, g.parent, "group parent"@), "raw document"@)
}

pub open spec fn raw_group_len(g: RawGroupView, r: Result<nat, ErrorView>) -> Result<
    nat,
    ErrorView,
> {
    raw_resources_len(g.resources, raw_subgroups_len(g.subgroups, raw_group_head_len(g, r)))
}

pub open spec fn raw_groups_len(gs: Seq<RawGroupView>, r: Result<nat, ErrorView>) -> Result<
    nat,
    ErrorView,
>
    decreases gs.len(),
{
    if gs.len() == 0 {
        r
    } else {
        raw_group_len(gs.last(), raw_groups_len(gs.drop_last(), r))
    }
}

/// What [`crate::binary::writer::raw_encoded_len`] computes: the exact length,
/// or the first defect met in document order.
pub open spec fn raw_document_len(m: RawManifestView) -> Result<nat, ErrorView> {
    raw_groups_len(
        m.groups,
        check(Ok(8), m.groups.len() <= I32_MAX, ErrorView::LengthOverflow { field: "group"@ }),
    )
}


// ----- the length computation agrees with the bytes -----

pub proof fn lemma_opt_string_len(flag: u8, value: Option<Seq<u8>>, field: Seq<char>)
    ensures
        opt_string_len(flag, value, field) is Ok <==> opt_str_ok(flag, value),
        opt_str_ok(flag, value) ==> opt_string_len(flag, value, field)->Ok_0 == opt_str_wire(
            flag,
            value,
        ).len(),
{
}

/// A length computation that already failed stays failed.
pub proof fn lemma_len_err_sticky(m: RawManifestView, g: RawGroupView, e: ErrorView)
    ensures
        raw_subgroups_len(g.subgroups, Err(e)) == Err::<nat, ErrorView>(e),
        raw_resources_len(g.resources, Err(e)) == Err::<nat, ErrorView>(e),
        raw_groups_len(m.groups, Err(e)) == Err::<nat, ErrorView>(e),
{
    lemma_subgroups_err(g.subgroups, e);
    lemma_resources_err(g.resources, e);
    lemma_groups_err(m.groups, e);
}

proof fn lemma_subgroups_err(subs: Seq<RawSubgroupView>, e: ErrorView)
    ensures
        raw_subgroups_len(subs, Err(e)) == Err::<nat, ErrorView>(e),
    decreases subs.len(),
{
    if subs.len() > 0 {
        lemma_subgroups_err(subs.drop_last(), e);
    }
}

proof fn lemma_resources_err(rs: Seq<RawResourceView>, e: ErrorView)
    ensures
        raw_resources_len(rs, Err(e)) == Err::<nat, ErrorView>(e),
    decreases rs.len(),
{
    if rs.len() > 0 {
        lemma_resources_err(rs.drop_last(), e);
    }
}

proof fn lemma_groups_err(gs: Seq<RawGroupView>, e: ErrorView)
    ensures
        raw_groups_len(gs, Err(e)) == Err::<nat, ErrorView>(e),
    decreases gs.len(),
{
    if gs.len() > 0 {
        lemma_groups_err(gs.drop_last(), e);
        let g = gs.last();
        lemma_subgroups_err(g.subgroups, e);
        lemma_resources_err(g.resources, e);
    }
}

pub proof fn lemma_raw_subgroups_len(subs: Seq<RawSubgroupView>, a: nat)
    requires
        a <= usize::MAX,
    ensures
        raw_subgroups_len(subs, Ok(a)) is Ok <==> (forall|i: int|
            0 <= i < subs.len() ==> #[trigger] subs[i].id.len() <= I32_MAX) && a
            + raw_subgroups_wire(subs).len() <= usize::MAX,
        raw_subgroups_len(subs, Ok(a)) is Ok ==> raw_subgroups_len(subs, Ok(a))->Ok_0 == a
            + raw_subgroups_wire(subs).len(),
    decreases subs.len(),
{
    if subs.len() > 0 {
        let init = subs.drop_last();
        let last = subs.last();
        lemma_raw_subgroups_len(init, a);
        let p_all = forall|i: int| 0 <= i < subs.len() ==> #[trigger] subs[i].id.len() <= I32_MAX;
        let p_init = forall|i: int|
            0 <= i < init.len() ==> #[trigger] init[i].id.len() <= I32_MAX;
        assert(p_all <==> p_init && last.id.len() <= I32_MAX) by {
            if p_all {
                assert forall|i: int| 0 <= i < init.len() implies #[trigger] init[i].id.len()
                    <= I32_MAX by {
                    assert(init[i] == subs[i]);
                }
                assert(subs[subs.len() - 1].id.len() <= I32_MAX);
            }
            if p_init && last.id.len() <= I32_MAX {
                assert forall|i: int| 0 <= i < subs.len() implies #[trigger] subs[i].id.len()
                    <= I32_MAX by {
                    if i < init.len() {
                        assert(init[i] == subs[i]);
                    }
                }
            }
        }
        match raw_subgroups_len(init, Ok(a)) {
            Ok(b) => {},
            Err(e) => {
                assert(raw_subgroups_len(subs, Ok(a)) == Err::<nat, ErrorView>(e));
            },
        }
    }
}

pub proof fn lemma_raw_resource_len(res: RawResourceView, a: nat)
    ensures
        raw_resource_len(res, Ok(a)) is Ok <==> raw_resource_ok(res) && a + raw_resource_wire(
            res,
        ).len() <= usize::MAX,
        raw_resource_len(res, Ok(a)) is Ok ==> raw_resource_len(res, Ok(a))->Ok_0 == a
            + raw_resource_wire(res).len(),
{
    lemma_opt_string_len(res.has_id, res.id, "resource id"@);
    lemma_opt_string_len(res.has_path, res.path, "resource path"@);
    lemma_opt_string_len(res.has_parent, res.parent, "resource parent"@);
}

pub proof fn lemma_raw_resources_len(rs: Seq<RawResourceView>, a: nat)
    requires
        a <= usize::MAX,
    ensures
        raw_resources_len(rs, Ok(a)) is Ok <==> (forall|i: int|
            0 <= i < rs.len() ==> raw_resource_ok(#[trigger] rs[i])) && a + raw_resources_wire(
            rs,
        ).len() <= usize::MAX,
        raw_resources_len(rs, Ok(a)) is Ok ==> raw_resources_len(rs, Ok(a))->Ok_0 == a
            + raw_resources_wire(rs).len(),
    decreases rs.len(),
{
    if rs.len() > 0 {
        let init = rs.drop_last();
        let last = rs.last();
        lemma_raw_resources_len(init, a);
        let p_all = forall|i: int| 0 <= i < rs.len() ==> raw_resource_ok(#[trigger] rs[i]);
        let p_init = forall|i: int| 0 <= i < init.len() ==> raw_resource_ok(#[trigger] init[i]);
        assert(p_all <==> p_init && raw_resource_ok(last)) by {
            if p_all {
                assert forall|i: int| 0 <= i < init.len() implies raw_resource_ok(
                    #[trigger] init[i],
                ) by {
                    assert(init[i] == rs[i]);
                }
                assert(raw_resource_ok(rs[rs.len() - 1]));
            }
            if p_init && raw_resource_ok(last) {
                assert forall|i: int| 0 <= i < rs.len() implies raw_resource_ok(#[trigger] rs[i]) by {
                    if i < init.len() {
                        assert(init[i] == rs[i]);
                    }
                }
            }
        }
        lemma_raw_resource_len(last, a + raw_resources_wire(init).len());
        match raw_resources_len(init, Ok(a)) {
            Ok(b) => {},
            Err(e) => {
                assert(raw_resources_len(rs, Ok(a)) == Err::<nat, ErrorView>(e));
            },
        }
    }
}

pub proof fn lemma_raw_group_len(g: RawGroupView, a: nat)
    ensures
        raw_group_len(g, Ok(a)) is Ok <==> raw_group_ok(g) && a + raw_group_wire(g).len()
            <= usize::MAX,
        raw_group_len(g, Ok(a)) is Ok ==> raw_group_len(g, Ok(a))->Ok_0 == a + raw_group_wire(
            g,
        ).len(),
{
    lemma_opt_string_len(g.has_id, g.id, "group id"@);
    lemma_opt_string_len(g.has_parent, g.parent, "group parent"@);
    let head = raw_group_head_len(g, Ok(a));
    let hw = raw_group_head_wire(g);
    assert(head is Ok <==> (g.subgroups.len() <= I32_MAX && g.resources.len() <= I32_MAX
        && opt_str_ok(g.has_id, g.id) && opt_str_ok(g.has_parent, g.parent) && a + hw.len()
        <= usize::MAX));
    assert(head is Ok ==> head->Ok_0 == a + hw.len());
    match head {
        Ok(h) => {
            lemma_raw_subgroups_len(g.subgroups, h);
            match raw_subgroups_len(g.subgroups, head) {
                Ok(s) => {
                    lemma_raw_resources_len(g.resources, s);
                },
                Err(e) => {
                    lemma_resources_err(g.resources, e);
                },
            }
        },
        Err(e) => {
            lemma_subgroups_err(g.subgroups, e);
            lemma_resources_err(g.resources, e);
        },
    }
}

pub proof fn lemma_raw_groups_len(gs: Seq<RawGroupView>, a: nat)
    requires
        a <= usize::MAX,
    ensures
        raw_groups_len(gs, Ok(a)) is Ok <==> (forall|i: int|
            0 <= i < gs.len() ==> raw_group_ok(#[trigger] gs[i])) && a + raw_groups_wire(gs).len()
            <= usize::MAX,
        raw_groups_len(gs, Ok(a)) is Ok ==> raw_groups_len(gs, Ok(a))->Ok_0 == a + raw_groups_wire(
            gs,
        ).len(),
    decreases gs.len(),
{
    if gs.len() > 0 {
        let init = gs.drop_last();
        let last = gs.last();
        lemma_raw_groups_len(init, a);
        let p_all = forall|i: int| 0 <= i < gs.len() ==> raw_group_ok(#[trigger] gs[i]);
        let p_init = forall|i: int| 0 <= i < init.len() ==> raw_group_ok(#[trigger] init[i]);
        assert(p_all <==> p_init && raw_group_ok(last)) by {
            if p_all {
                assert forall|i: int| 0 <= i < init.len() implies raw_group_ok(#[trigger] init[i]) by {
                    assert(init[i] == gs[i]);
                }
                assert(raw_group_ok(gs[gs.len() - 1]));
            }
            if p_init && raw_group_ok(last) {
                assert forall|i: int| 0 <= i < gs.len() implies raw_group_ok(#[trigger] gs[i]) by {
                    if i < init.len() {
                        assert(init[i] == gs[i]);
                    }
                }
            }
        }
        lemma_raw_group_len(last, a + raw_groups_wire(init).len());
        match raw_groups_len(init, Ok(a)) {
            Ok(b) => {},
            Err(e) => {
                lemma_subgroups_err(last.subgroups, e);
                lemma_resources_err(last.resources, e);
                assert(raw_groups_len(gs, Ok(a)) == Err::<nat, ErrorView>(e));
            },
        }
    }
}

/// The raw length computation succeeds exactly on writable documents whose
/// bytes fit in memory, and then it is the number of bytes written.
pub proof fn lemma_raw_document_len(m: RawManifestView)
    ensures
        raw_document_len(m) is Ok <==> raw_document_ok(m) && raw_document_wire(m).len()
            <= usize::MAX,
        raw_document_len(m) is Ok ==> raw_document_len(m)->Ok_0 == raw_document_wire(m).len(),
{
    lemma_raw_groups_len(m.groups, 8);
    lemma_groups_err(m.groups, ErrorView::LengthOverflow { field: "group"@ });
}


/// A failure met after the first `k` subgroups is the failure of the whole.
pub proof fn lemma_raw_subgroups_prefix_err(subs: Seq<RawSubgroupView>, k: int, r: Result<nat, ErrorView>)
    requires
        0 <= k <= subs.len(),
        raw_subgroups_len(subs.take(k), r) is Err,
    ensures
        raw_subgroups_len(subs, r) == raw_subgroups_len(subs.take(k), r),
    decreases subs.len(),
{
    if k == subs.len() {
        assert(subs.take(k) =~= subs);
    } else {
        assert(subs.drop_last().take(k) =~= subs.take(k));
        lemma_raw_subgroups_prefix_err(subs.drop_last(), k, r);
    }
}

pub proof fn lemma_raw_resources_prefix_err(rs: Seq<RawResourceView>, k: int, r: Result<nat, ErrorView>)
    requires
        0 <= k <= rs.len(),
        raw_resources_len(rs.take(k), r) is Err,
    ensures
        raw_resources_len(rs, r) == raw_resources_len(rs.take(k), r),
    decreases rs.len(),
{
    if k == rs.len() {
        assert(rs.take(k) =~= rs);
    } else {
        assert(rs.drop_last().take(k) =~= rs.take(k));
        lemma_raw_resources_prefix_err(rs.drop_last(), k, r);
    }
}

pub proof fn lemma_raw_groups_prefix_err(gs: Seq<RawGroupView>, k: int, r: Result<nat, ErrorView>)
    requires
        0 <= k <= gs.len(),
        raw_groups_len(gs.take(k), r) is Err,
    ensures
        raw_groups_len(gs, r) == raw_groups_len(gs.take(k), r),
    decreases gs.len(),
{
    if k == gs.len() {
        assert(gs.take(k) =~= gs);
    } else {
        assert(gs.drop_last().take(k) =~= gs.take(k));
        lemma_raw_groups_prefix_err(gs.drop_last(), k, r);
        let e = raw_groups_len(gs.take(k), r)->Err_0;
        lemma_subgroups_err(gs.last().subgroups, e);
        lemma_resources_err(gs.last().resources, e);
    }
}

// ----- the encoded length as a sum of its parts -----

/// The bytes an optional string takes on the wire: its length prefix and its
/// bytes when its flag byte is 1, nothing otherwise.
pub open spec fn opt_str_size(flag: u8, value: Option<Seq<u8>>) -> nat {
    if flag == 1 && value is Some {
        4 + value->0.len()
    } else {
        0
    }
}

/// The number of subgroup records of all groups.
pub open spec fn subgroup_count(gs: Seq<RawGroupView>) -> nat
    decreases gs.len(),
{
    if gs.len() == 0 {
        0
    } else {
        subgroup_count(gs.drop_last()) + gs.last().subgroups.len()
    }
}

/// The number of resource records of all groups.
pub open spec fn resource_count(gs: Seq<RawGroupView>) -> nat
    decreases gs.len(),
{
    if gs.len() == 0 {
        0
    } else {
        resource_count(gs.drop_last()) + gs.last().resources.len()
    }
}

/// The bytes taken by the IDs of subgroups, length prefixes included.
pub open spec fn subgroup_string_size(subs: Seq<RawSubgroupView>) -> nat
    decreases subs.len(),
{
    if subs.len() == 0 {
        0
    } else {
        subgroup_string_size(subs.drop_last()) + 4 + subs.last().id.len()
    }
}

/// The bytes taken by the strings of resources.
pub open spec fn resource_string_size(rs: Seq<RawResourceView>) -> nat
    decreases rs.len(),
{
    if rs.len() == 0 {
        0
    } else {
        let r = rs.last();
        resource_string_size(rs.drop_last()) + opt_str_size(r.has_id, r.id) + opt_str_size(
            r.has_path,
            r.path,
        ) + opt_str_size(r.has_parent, r.parent)
    }
}

/// The bytes taken by every string of all groups.
pub open spec fn string_size(gs: Seq<RawGroupView>) -> nat
    decreases gs.len(),
{
    if gs.len() == 0 {
        0
    } else {
        let g = gs.last();
        string_size(gs.drop_last()) + opt_str_size(g.has_id, g.id) + opt_str_size(
            g.has_parent,
            g.parent,
        ) + subgroup_string_size(g.subgroups) + resource_string_size(g.resources)
    }
}

/// The encoded size of a raw document, counted by parts: the header, the
/// fixed part of each group, subgroup and resource record, and every string
/// that is written.
pub open spec fn size_by_parts(m: RawManifestView) -> nat {
    (DOCUMENT_HEADER_SIZE + GROUP_FIXED_SIZE * m.groups.len() + SUBGROUP_FIXED_SIZE
        * subgroup_count(m.groups) + RESOURCE_FIXED_SIZE * resource_count(m.groups) + string_size(
        m.groups,
    )) as nat
}

proof fn lemma_opt_str_size(flag: u8, value: Option<Seq<u8>>)
    ensures
        opt_str_wire(flag, value).len() == opt_str_size(flag, value),
{
}

proof fn lemma_subgroups_size(subs: Seq<RawSubgroupView>)
    ensures
        raw_subgroups_wire(subs).len() == 4 * subs.len() + subgroup_string_size(subs),
    decreases subs.len(),
{
    if subs.len() > 0 {
        lemma_subgroups_size(subs.drop_last());
    }
}

proof fn lemma_resources_size(rs: Seq<RawResourceView>)
    ensures
        raw_resources_wire(rs).len() == 49 * rs.len() + resource_string_size(rs),
    decreases rs.len(),
{
    if rs.len() > 0 {
        lemma_resources_size(rs.drop_last());
        let r = rs.last();
        lemma_opt_str_size(r.has_id, r.id);
        lemma_opt_str_size(r.has_path, r.path);
        lemma_opt_str_size(r.has_parent, r.parent);
        assert(raw_resource_fixed(r).len() == 49);
    }
}

proof fn lemma_groups_size(gs: Seq<RawGroupView>)
    ensures
        raw_groups_wire(gs).len() == 15 * gs.len() + 4 * subgroup_count(gs) + 49 * resource_count(gs)
            + string_size(gs),
    decreases gs.len(),
{
    if gs.len() > 0 {
        lemma_groups_size(gs.drop_last());
        let g = gs.last();
        lemma_opt_str_size(g.has_id, g.id);
        lemma_opt_str_size(g.has_parent, g.parent);
        lemma_subgroups_size(g.subgroups);
        lemma_resources_size(g.resources);
    }
}

/// The encoded size of a raw document is the sum of its parts: 8 header
/// bytes, 15 per group, 4 per subgroup, 49 per resource, and 4 plus the
/// length of every string whose flag byte is 1 and every subgroup ID. So
/// when the encoder's length computation succeeds, it gives that sum.
pub proof fn encoded_size_is_the_sum_of_its_parts(m: RawManifestView)
    ensures
        raw_document_wire(m).len() == size_by_parts(m),
        raw_document_len(m) matches Ok(n) ==> n == size_by_parts(m),
{
    lemma_groups_size(m.groups);
    lemma_raw_document_len(m);
}

/// The fixed part of a resource record holds, in order, the type byte, the
/// slot, width, height, x, y, atlas x, atlas y, atlas width, atlas height,
/// columns and rows as four little-endian bytes each, then the atlas, ID,
/// path and parent flag bytes.
pub proof fn resource_record_layout(r: RawResourceView)
    ensures
        ({
            let w = raw_resource_wire(r);
            &&& w.len() >= 49
            &&& w[0] == r.resource_type
            &&& w.subrange(1, 5) == le_i32(r.slot)
            &&& w.subrange(5, 9) == le_i32(r.width)
            &&& w.subrange(9, 13) == le_i32(r.height)
            &&& w.subrange(13, 17) == le_i32(r.x)
            &&& w.subrange(17, 21) == le_i32(r.y)
            &&& w.subrange(21, 25) == le_i32(r.ax)
            &&& w.subrange(25, 29) == le_i32(r.ay)
            &&& w.subrange(29, 33) == le_i32(r.aw)
            &&& w.subrange(33, 37) == le_i32(r.ah)
            &&& w.subrange(37, 41) == le_i32(r.cols)
            &&& w.subrange(41, 45) == le_i32(r.rows)
            &&& w[45] == r.atlas && w[46] == r.has_id && w[47] == r.has_path && w[48] == r.has_parent
            &&& w.subrange(49, w.len() as int) == opt_str_wire(r.has_id, r.id) + opt_str_wire(r.has_path, r.path)
                + opt_str_wire(r.has_parent, r.parent)
        }),
{
    let w = raw_resource_wire(r);
    let f = raw_resource_fixed(r);
    assert(f.len() == 49);
    assert forall|k: int| 0 <= k < 49 implies w[k] == f[k] by {}
    assert(w.subrange(1, 5) =~= le_i32(r.slot));
    assert(w.subrange(5, 9) =~= le_i32(r.width));
    assert(w.subrange(9, 13) =~= le_i32(r.height));
    assert(w.subrange(13, 17) =~= le_i32(r.x));
    assert(w.subrange(17, 21) =~= le_i32(r.y));
    assert(w.subrange(21, 25) =~= le_i32(r.ax));
    assert(w.subrange(25, 29) =~= le_i32(r.ay));
    assert(w.subrange(29, 33) =~= le_i32(r.aw));
    assert(w.subrange(33, 37) =~= le_i32(r.ah));
    assert(w.subrange(37, 41) =~= le_i32(r.cols));
    assert(w.subrange(41, 45) =~= le_i32(r.rows));
    assert(w.subrange(49, w.len() as int) =~= opt_str_wire(r.has_id, r.id) + opt_str_wire(r.has_path, r.path)
        + opt_str_wire(r.has_parent, r.parent));
}

/// A document starts with its slot count and its group count, four
/// little-endian bytes each, then its groups in order.
pub proof fn document_header_layout(m: RawManifestView)
    ensures
        ({
            let w = raw_document_wire(m);
            &&& w.len() >= 8
            &&& w.subrange(0, 4) == le_i32(m.slot_count)
            &&& w.subrange(4, 8) == le_i32(m.groups.len() as i32)
            &&& w.subrange(8, w.len() as int) == raw_groups_wire(m.groups)
        }),
{
    let w = raw_document_wire(m);
    assert(w.subrange(0, 4) =~= le_i32(m.slot_count));
    assert(w.subrange(4, 8) =~= le_i32(m.groups.len() as i32));
    assert(w.subrange(8, w.len() as int) =~= raw_groups_wire(m.groups));
}

/// A group record starts with its type byte, its resolution, its subgroup
/// count and its resource count, then its ID and parent flag bytes, its ID
/// and parent strings, its subgroups and its resources.
#[verifier::rlimit(40)]
pub proof fn group_record_layout(g: RawGroupView)
    ensures
        ({
            let w = raw_group_wire(g);
            let strings = opt_str_wire(g.has_id, g.id) + opt_str_wire(g.has_parent, g.parent);
            &&& w.len() >= 15 + strings.len()
            &&& w[0] == g.group_type
            &&& w.subrange(1, 5) == le_i32(g.resolution)
            &&& w.subrange(5, 9) == le_i32(g.subgroups.len() as i32)
            &&& w.subrange(9, 13) == le_i32(g.resources.len() as i32)
            &&& w[13] == g.has_id && w[14] == g.has_parent
            &&& w.subrange(15, 15 + strings.len() as int) == strings
            &&& w.subrange(15 + strings.len() as int, w.len() as int) == raw_subgroups_wire(g.subgroups)
                + raw_resources_wire(g.resources)
        }),
{
    let fixed = seq![g.group_type] + le_i32(g.resolution) + le_i32(g.subgroups.len() as i32) + le_i32(
        g.resources.len() as i32,
    ) + seq![g.has_id, g.has_parent];
    let strings = opt_str_wire(g.has_id, g.id) + opt_str_wire(g.has_parent, g.parent);
    let tail = raw_subgroups_wire(g.subgroups) + raw_resources_wire(g.resources);
    let w = raw_group_wire(g);
    assert(raw_group_head_wire(g) =~= fixed + strings);
    assert(w =~= fixed + strings + tail);
    assert(fixed.len() == 15);
    assert(fixed.subrange(1, 5) =~= le_i32(g.resolution));
    assert(fixed.subrange(5, 9) =~= le_i32(g.subgroups.len() as i32));
    assert(fixed.subrange(9, 13) =~= le_i32(g.resources.len() as i32));
    assert(w.subrange(1, 5) =~= fixed.subrange(1, 5));
    assert(w.subrange(5, 9) =~= fixed.subrange(5, 9));
    assert(w.subrange(9, 13) =~= fixed.subrange(9, 13));
    assert(w[0] == fixed[0] && w[13] == fixed[13] && w[14] == fixed[14]);
    assert(w.subrange(15, 15 + strings.len() as int) =~= strings);
    assert(w.subrange(15 + strings.len() as int, w.len() as int) =~= tail);
}

/// A subgroup record is its resolution, four little-endian bytes, then its
/// ID; a string is its length, four little-endian bytes, then its bytes.
pub proof fn subgroup_and_string_layout(sub: RawSubgroupView, b: Seq<u8>)
    ensures
        raw_subgroup_wire(sub).subrange(0, 4) == le_i32(sub.resolution),
        raw_subgroup_wire(sub).subrange(4, raw_subgroup_wire(sub).len() as int) == str_wire(sub.id),
        str_wire(b).subrange(0, 4) == le_i32(b.len() as i32),
        str_wire(b).subrange(4, str_wire(b).len() as int) == b,
{
    assert(raw_subgroup_wire(sub).subrange(0, 4) =~= le_i32(sub.resolution));
    assert(raw_subgroup_wire(sub).subrange(4, raw_subgroup_wire(sub).len() as int) =~= str_wire(sub.id));
    assert(str_wire(b).subrange(0, 4) =~= le_i32(b.len() as i32));
    assert(str_wire(b).subrange(4, str_wire(b).len() as int) =~= b);
}

/// An optional string is written, length first, exactly when its flag byte
/// is 1 and it is present; any other flag byte writes nothing.
pub proof fn optional_string_layout(flag: u8, value: Option<Seq<u8>>)
    ensures
        flag != 1 ==> opt_str_wire(flag, value).len() == 0,
        value is None ==> opt_str_wire(flag, value).len() == 0,
        flag == 1 && value is Some ==> opt_str_wire(flag, value).len() == 4 + value->0.len()
            && opt_str_wire(flag, value).subrange(0, 4) == le_i32(value->0.len() as i32)
            && opt_str_wire(flag, value).subrange(4, 4 + value->0.len() as int) == value->0,
{
    if flag == 1 && value is Some {
        let b = value->0;
        assert(str_wire(b).subrange(0, 4) =~= le_i32(b.len() as i32));
        assert(str_wire(b).subrange(4, 4 + b.len() as int) =~= b);
    }
}

} // verus!
