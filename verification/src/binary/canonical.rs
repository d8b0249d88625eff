//! How the semantic model is laid out on the wire: every semantic document is
//! written as the raw document that `manifest_to_raw` gives.
use crate::binary::format::{
    add_len, add_part, check, raw_document_ok, raw_document_wire, raw_group_ok, raw_group_wire,
    raw_groups_wire, raw_resource_ok, raw_resource_wire, raw_resources_wire, raw_subgroups_wire,
    str_wire, string_len, I32_MAX,
};
use crate::error::ErrorView;
use crate::raw::{RawGroupView, RawManifestView, RawResourceView, RawSubgroupView};
use crate::types::{
    type_byte, CompositeGroupView, GroupView, ManifestView, ResourceView, SimpleGroupView,
    SubgroupView,
};
use vstd::prelude::*;
use vstd::utf8::encode_utf8;

verus! {

/// Value written for an absent coordinate of a resource that is not a sprite.
pub const ABSENT_COORDINATE: i32 = 0x7fff_ffff;

pub open spec fn opt_text_bytes(v: Option<Seq<char>>) -> Option<Seq<u8>> {
    match v {
        Some(s) => Some(encode_utf8(s)),
        None => None,
    }
}

/// A presence byte.
pub open spec fn flag(b: bool) -> u8 {
    if b {
        1
    } else {
        0
    }
}

/// An optional number stored with `0` meaning absent.
pub open spec fn or_zero(v: Option<u32>) -> i32 {
    match v {
        Some(x) => x as i32,
        None => 0,
    }
}

/// An optional number stored with `1` meaning absent.
pub open spec fn or_one(v: Option<u32>) -> i32 {
    match v {
        Some(x) => x as i32,
        None => 1,
    }
}

/// A coordinate as written: absent sprite coordinates become `0`, other
/// absent coordinates the sentinel.
pub open spec fn coordinate_or_default(v: Option<i32>, r: ResourceView) -> i32 {
    match v {
        Some(x) => x,
        None => if r.is_sprite() {
            0
        } else {
            ABSENT_COORDINATE
        },
    }
}

pub open spec fn resource_to_raw(r: ResourceView) -> RawResourceView {
    RawResourceView {
        resource_type: type_byte(r.resource_type),
        slot: r.slot as i32,
        width: or_zero(r.width),
        height: or_zero(r.height),
        x: coordinate_or_default(r.x, r),
        y: coordinate_or_default(r.y, r),
        ax: or_zero(r.ax),
        ay: or_zero(r.ay),
        aw: or_zero(r.aw),
        ah: or_zero(r.ah),
        cols: or_one(r.cols),
        rows: or_one(r.rows),
        atlas: flag(r.atlas),
        has_id: 1,
        has_path: 1,
        has_parent: flag(r.parent is Some),
        id: Some(encode_utf8(r.id)),
        path: Some(encode_utf8(r.path)),
        parent: opt_text_bytes(r.parent),
    }
}

pub open spec fn subgroup_to_raw(s: SubgroupView) -> RawSubgroupView {
    RawSubgroupView { resolution: or_zero(s.resolution), id: encode_utf8(s.id) }
}

pub open spec fn subgroups_to_raw(subs: Seq<SubgroupView>) -> Seq<RawSubgroupView> {
    subs.map_values(|s: SubgroupView| subgroup_to_raw(s))
}

pub open spec fn resources_to_raw(rs: Seq<ResourceView>) -> Seq<RawResourceView> {
    rs.map_values(|r: ResourceView| resource_to_raw(r))
}

pub open spec fn groups_to_raw(gs: Seq<GroupView>) -> Seq<RawGroupView> {
    gs.map_values(|g: GroupView| group_to_raw(g))
}

pub open spec fn group_to_raw(g: GroupView) -> RawGroupView {
    match g {
        GroupView::Composite(c) => RawGroupView {
            group_type: 1,
            resolution: or_zero(c.resolution),
            has_id: 1,
            has_parent: flag(c.parent is Some),
            id: Some(encode_utf8(c.id)),
            parent: opt_text_bytes(c.parent),
            subgroups: subgroups_to_raw(c.subgroups),
            resources: Seq::empty(),
        },
        GroupView::Simple(s) => RawGroupView {
            group_type: 2,
            resolution: or_zero(s.resolution),
            has_id: 1,
            has_parent: flag(s.parent is Some),
            id: Some(encode_utf8(s.id)),
            parent: opt_text_bytes(s.parent),
            subgroups: Seq::empty(),
            resources: resources_to_raw(s.resources),
        },
    }
}

/// The raw document that encoding a semantic document writes.
pub open spec fn manifest_to_raw(m: ManifestView) -> RawManifestView {
    RawManifestView {
        slot_count: m.slot_count as i32,
        groups: groups_to_raw(m.groups),
    }
}

/// The bytes that encoding a semantic document writes.
pub open spec fn document_wire(m: ManifestView) -> Seq<u8> {
    raw_document_wire(manifest_to_raw(m))
}

// ----- which semantic documents can be written -----

pub open spec fn text_ok(s: Seq<char>) -> bool {
    encode_utf8(s).len() <= I32_MAX
}

pub open spec fn opt_text_ok(v: Option<Seq<char>>) -> bool {
    v is Some ==> text_ok(v->0)
}

pub open spec fn number_ok(v: Option<u32>) -> bool {
    v is Some ==> v->0 <= I32_MAX
}

pub open spec fn resource_ok(r: ResourceView) -> bool {
    &&& r.slot <= I32_MAX
    &&& number_ok(r.width)
    &&& number_ok(r.height)
    &&& number_ok(r.ax)
    &&& number_ok(r.ay)
    &&& number_ok(r.aw)
    &&& number_ok(r.ah)
    &&& number_ok(r.cols)
    &&& number_ok(r.rows)
    &&& text_ok(r.id)
    &&& text_ok(r.path)
    &&& opt_text_ok(r.parent)
}

pub open spec fn subgroup_ok(s: SubgroupView) -> bool {
    number_ok(s.resolution) && text_ok(s.id)
}

pub open spec fn group_ok(g: GroupView) -> bool {
    &&& text_ok(g.id())
    &&& opt_text_ok(g.parent())
    &&& number_ok(g.resolution())
    &&& match g {
        GroupView::Composite(c) => c.subgroups.len() <= I32_MAX && forall|i: int|
            0 <= i < c.subgroups.len() ==> subgroup_ok(#[trigger] c.subgroups[i]),
        GroupView::Simple(s) => s.resources.len() <= I32_MAX && forall|i: int|
            0 <= i < s.resources.len() ==> resource_ok(#[trigger] s.resources[i]),
    }
}

/// Every number, count and string of the document fits its wire field.
pub open spec fn document_ok(m: ManifestView) -> bool {
    &&& m.slot_count <= I32_MAX
    &&& m.groups.len() <= I32_MAX
    &&& forall|i: int| 0 <= i < m.groups.len() ==> group_ok(#[trigger] m.groups[i])
}

// ----- the length computation, step by step -----

pub open spec fn check_integer(r: Result<nat, ErrorView>, field: Seq<char>, value: u32) -> Result<
    nat,
    ErrorView,
> {
    check(r, value <= I32_MAX, ErrorView::IntegerOutOfRange { field, value })
}

pub open spec fn check_opt_integer(r: Result<nat, ErrorView>, field: Seq<char>, v: Option<u32>) -> Result<
    nat,
    ErrorView,
> {
    match v {
        Some(x) => check_integer(r, field, x),
        None => r,
    }
}

pub open spec fn text_len(s: Seq<char>) -> Result<nat, ErrorView> {
    string_len(encode_utf8(s))
}

pub open spec fn add_opt_text(r: Result<nat, ErrorView>, v: Option<Seq<char>>) -> Result<
    nat,
    ErrorView,
> {
    match v {
        Some(s) => add_part(r, text_len(s), "document"@),
        None => r,
    }
}

/// The numeric checks of a resource, in the order the encoder makes them.
pub open spec fn resource_numbers_check(res: ResourceView, r: Result<nat, ErrorView>) -> Result<
    nat,
    ErrorView,
> {
    let r = check_integer(r, "resource slot"@, res.slot);
    let r = check_opt_integer(r, "resource width"@, res.width);
    let r = check_opt_integer(r, "resource height"@, res.height);
    let r = check_opt_integer(r, "resource atlas x"@, res.ax);
    let r = check_opt_integer(r, "resource atlas y"@, res.ay);
    let r = check_opt_integer(r, "resource atlas width"@, res.aw);
    let r = check_opt_integer(r, "resource atlas height"@, res.ah);
    let r = check_opt_integer(r, "resource columns"@, res.cols);
    check_opt_integer(r, "resource rows"@, res.rows)
}

pub open spec fn resource_len(res: ResourceView, r: Result<nat, ErrorView>) -> Result<
    nat,
    ErrorView,
> {
    let r = resource_numbers_check(res, r);
    let r = add_len(r, 49, "document"@);
    let r = add_part(r, text_len(res.id), "document"@);
    let r = add_part(r, text_len(res.path), "document"@);
    add_opt_text(r, res.parent)
}

pub open spec fn resources_len(rs: Seq<ResourceView>, r: Result<nat, ErrorView>) -> Result<
    nat,
    ErrorView,
>
    decreases rs.len(),
{
    if rs.len() == 0 {
        r
    } else {
        resource_len(rs.last(), resources_len(rs.drop_last(), r))
    }
}

pub open spec fn subgroup_len(s: SubgroupView, r: Result<nat, ErrorView>) -> Result<
    nat,
    ErrorView,
> {
    let r = check_opt_integer(r, "subgroup resolution"@, s.resolution);
    add_part(add_len(r, 4, "document"@), text_len(s.id), "document"@)
}

pub open spec fn subgroups_len(subs: Seq<SubgroupView>, r: Result<nat, ErrorView>) -> Result<
    nat,
    ErrorView,
>
    decreases subs.len(),
{
    if subs.len() == 0 {
        r
    } else {
        subgroup_len(subs.last(), subgroups_len(subs.drop_last(), r))
    }
}

pub open spec fn group_head_len(g: GroupView, r: Result<nat, ErrorView>) -> Result<
    nat,
    ErrorView,
> {
    let r = add_len(r, 15, "document"@);
    let r = add_part(r, text_len(g.id()), "document"@);
    let r = add_opt_text(r, g.parent());
    check_opt_integer(r, "group resolution"@, g.resolution())
}

pub open spec fn group_len(g: GroupView, r: Result<nat, ErrorView>) -> Result<nat, ErrorView> {
    let r = group_head_len(g, r);
    match g {
        GroupView::Composite(c) => subgroups_len(
            c.subgroups,
            check(r, c.subgroups.len() <= I32_MAX, ErrorView::LengthOverflow { field: "subgroup"@ }),
        ),
        GroupView::Simple(s) => resources_len(
            s.resources,
            check(r, s.resources.len() <= I32_MAX, ErrorView::LengthOverflow { field: "resource"@ }),
        ),
    }
}

pub open spec fn groups_len(gs: Seq<GroupView>, r: Result<nat, ErrorView>) -> Result<nat, ErrorView>
    decreases gs.len(),
{
    if gs.len() == 0 {
        r
    } else {
        group_len(gs.last(), groups_len(gs.drop_last(), r))
    }
}

/// What [`crate::binary::writer::encoded_len`] computes: the exact length, or
/// the first defect met in document order.
pub open spec fn document_len(m: ManifestView) -> Result<nat, ErrorView> {
    groups_len(
        m.groups,
        check(
            check_integer(Ok(8), "slot count"@, m.slot_count),
            m.groups.len() <= I32_MAX,
            ErrorView::LengthOverflow { field: "group"@ },
        ),
    )
}


// ----- the length computation agrees with the bytes -----

proof fn lemma_resources_err(rs: Seq<ResourceView>, e: ErrorView)
    ensures
        resources_len(rs, Err(e)) == Err::<nat, ErrorView>(e),
    decreases rs.len(),
{
    if rs.len() > 0 {
        lemma_resources_err(rs.drop_last(), e);
    }
}

proof fn lemma_subgroups_err(subs: Seq<SubgroupView>, e: ErrorView)
    ensures
        subgroups_len(subs, Err(e)) == Err::<nat, ErrorView>(e),
    decreases subs.len(),
{
    if subs.len() > 0 {
        lemma_subgroups_err(subs.drop_last(), e);
    }
}

proof fn lemma_group_err(g: GroupView, e: ErrorView)
    ensures
        group_len(g, Err(e)) == Err::<nat, ErrorView>(e),
{
    match g {
        GroupView::Composite(c) => lemma_subgroups_err(c.subgroups, e),
        GroupView::Simple(s) => lemma_resources_err(s.resources, e),
    }
}

proof fn lemma_groups_err(gs: Seq<GroupView>, e: ErrorView)
    ensures
        groups_len(gs, Err(e)) == Err::<nat, ErrorView>(e),
    decreases gs.len(),
{
    if gs.len() > 0 {
        lemma_groups_err(gs.drop_last(), e);
        lemma_group_err(gs.last(), e);
    }
}

/// A length computation that already failed stays failed.
pub proof fn lemma_len_err_sticky(e: ErrorView)
    ensures
        forall|rs: Seq<ResourceView>| #[trigger] resources_len(rs, Err(e)) == Err::<nat, ErrorView>(e),
        forall|subs: Seq<SubgroupView>| #[trigger] subgroups_len(subs, Err(e)) == Err::<nat, ErrorView>(e),
        forall|gs: Seq<GroupView>| #[trigger] groups_len(gs, Err(e)) == Err::<nat, ErrorView>(e),
{
    assert forall|rs: Seq<ResourceView>| #[trigger] resources_len(rs, Err(e)) == Err::<nat, ErrorView>(e) by {
        lemma_resources_err(rs, e);
    }
    assert forall|subs: Seq<SubgroupView>| #[trigger] subgroups_len(subs, Err(e)) == Err::<nat, ErrorView>(e) by {
        lemma_subgroups_err(subs, e);
    }
    assert forall|gs: Seq<GroupView>| #[trigger] groups_len(gs, Err(e)) == Err::<nat, ErrorView>(e) by {
        lemma_groups_err(gs, e);
    }
}

pub proof fn lemma_resources_prefix_err(rs: Seq<ResourceView>, k: int, r: Result<nat, ErrorView>)
    requires
        0 <= k <= rs.len(),
        resources_len(rs.take(k), r) is Err,
    ensures
        resources_len(rs, r) == resources_len(rs.take(k), r),
    decreases rs.len(),
{
    if k == rs.len() {
        assert(rs.take(k) =~= rs);
    } else {
        assert(rs.drop_last().take(k) =~= rs.take(k));
        lemma_resources_prefix_err(rs.drop_last(), k, r);
    }
}

pub proof fn lemma_subgroups_prefix_err(subs: Seq<SubgroupView>, k: int, r: Result<nat, ErrorView>)
    requires
        0 <= k <= subs.len(),
        subgroups_len(subs.take(k), r) is Err,
    ensures
        subgroups_len(subs, r) == subgroups_len(subs.take(k), r),
    decreases subs.len(),
{
    if k == subs.len() {
        assert(subs.take(k) =~= subs);
    } else {
        assert(subs.drop_last().take(k) =~= subs.take(k));
        lemma_subgroups_prefix_err(subs.drop_last(), k, r);
    }
}

pub proof fn lemma_groups_prefix_err(gs: Seq<GroupView>, k: int, r: Result<nat, ErrorView>)
    requires
        0 <= k <= gs.len(),
        groups_len(gs.take(k), r) is Err,
    ensures
        groups_len(gs, r) == groups_len(gs.take(k), r),
    decreases gs.len(),
{
    if k == gs.len() {
        assert(gs.take(k) =~= gs);
    } else {
        assert(gs.drop_last().take(k) =~= gs.take(k));
        lemma_groups_prefix_err(gs.drop_last(), k, r);
        lemma_group_err(gs.last(), groups_len(gs.take(k), r)->Err_0);
    }
}

proof fn lemma_numbers_check(res: ResourceView, a: nat)
    ensures
        resource_numbers_check(res, Ok(a)) is Ok ==> resource_numbers_check(res, Ok(a)) == Ok::<
            nat,
            ErrorView,
        >(a),
        resource_numbers_check(res, Ok(a)) is Ok <==> (res.slot <= I32_MAX && number_ok(res.width)
            && number_ok(res.height) && number_ok(res.ax) && number_ok(res.ay) && number_ok(res.aw)
            && number_ok(res.ah) && number_ok(res.cols) && number_ok(res.rows)),
{
}

pub proof fn lemma_resource_len(res: ResourceView, a: nat)
    ensures
        resource_len(res, Ok(a)) is Ok <==> resource_ok(res) && a + raw_resource_wire(
            resource_to_raw(res),
        ).len() <= usize::MAX,
        resource_len(res, Ok(a)) is Ok ==> resource_len(res, Ok(a))->Ok_0 == a
            + raw_resource_wire(resource_to_raw(res)).len(),
        resource_ok(res) ==> raw_resource_ok(resource_to_raw(res)),
{
    lemma_numbers_check(res, a);
    let raw = resource_to_raw(res);
    assert(raw_resource_wire(raw).len() == 49 + 4 + encode_utf8(res.id).len() + 4 + encode_utf8(
        res.path,
    ).len() + (if res.parent is Some {
        4 + encode_utf8(res.parent->0).len()
    } else {
        0
    }));
}

pub proof fn lemma_resources_len(rs: Seq<ResourceView>, a: nat)
    requires
        a <= usize::MAX,
    ensures
        resources_len(rs, Ok(a)) is Ok <==> (forall|i: int|
            0 <= i < rs.len() ==> resource_ok(#[trigger] rs[i])) && a + raw_resources_wire(
            resources_to_raw(rs),
        ).len() <= usize::MAX,
        resources_len(rs, Ok(a)) is Ok ==> resources_len(rs, Ok(a))->Ok_0 == a
            + raw_resources_wire(resources_to_raw(rs)).len(),
        (forall|i: int| 0 <= i < rs.len() ==> resource_ok(#[trigger] rs[i])) ==> (forall|i: int|
            0 <= i < rs.len() ==> raw_resource_ok(#[trigger] resources_to_raw(rs)[i])),
    decreases rs.len(),
{
    let raws = resources_to_raw(rs);
    assert forall|i: int| 0 <= i < rs.len() implies #[trigger] raws[i] == resource_to_raw(rs[i]) by {}
    if rs.len() > 0 {
        let init = rs.drop_last();
        let last = rs.last();
        lemma_resources_len(init, a);
        assert(raws.drop_last() =~= resources_to_raw(init));
        assert(raws.last() == resource_to_raw(last));
        let p_all = forall|i: int| 0 <= i < rs.len() ==> resource_ok(#[trigger] rs[i]);
        let p_init = forall|i: int| 0 <= i < init.len() ==> resource_ok(#[trigger] init[i]);
        assert(p_all <==> p_init && resource_ok(last)) by {
            if p_all {
                assert forall|i: int| 0 <= i < init.len() implies resource_ok(#[trigger] init[i]) by {
                    assert(init[i] == rs[i]);
                }
                assert(resource_ok(rs[rs.len() - 1]));
            }
            if p_init && resource_ok(last) {
                assert forall|i: int| 0 <= i < rs.len() implies resource_ok(#[trigger] rs[i]) by {
                    if i < init.len() {
                        assert(init[i] == rs[i]);
                    }
                }
            }
        }
        lemma_resource_len(last, a + raw_resources_wire(resources_to_raw(init)).len());
        if p_all {
            assert forall|i: int| 0 <= i < rs.len() implies raw_resource_ok(#[trigger] raws[i]) by {
                lemma_resource_len(rs[i], 0);
            }
        }
        match resources_len(init, Ok(a)) {
            Ok(b) => {},
            Err(e) => {
                assert(resources_len(rs, Ok(a)) == Err::<nat, ErrorView>(e));
            },
        }
    }
}

pub proof fn lemma_subgroups_len(subs: Seq<SubgroupView>, a: nat)
    requires
        a <= usize::MAX,
    ensures
        subgroups_len(subs, Ok(a)) is Ok <==> (forall|i: int|
            0 <= i < subs.len() ==> subgroup_ok(#[trigger] subs[i])) && a + raw_subgroups_wire(
            subgroups_to_raw(subs),
        ).len() <= usize::MAX,
        subgroups_len(subs, Ok(a)) is Ok ==> subgroups_len(subs, Ok(a))->Ok_0 == a
            + raw_subgroups_wire(subgroups_to_raw(subs)).len(),
        (forall|i: int| 0 <= i < subs.len() ==> subgroup_ok(#[trigger] subs[i])) ==> (forall|i: int|
            0 <= i < subs.len() ==> (#[trigger] subgroups_to_raw(subs)[i]).id.len() <= I32_MAX),
    decreases subs.len(),
{
    let raws = subgroups_to_raw(subs);
    assert forall|i: int| 0 <= i < subs.len() implies #[trigger] raws[i] == subgroup_to_raw(subs[i]) by {}
    if subs.len() > 0 {
        let init = subs.drop_last();
        let last = subs.last();
        lemma_subgroups_len(init, a);
        assert(raws.drop_last() =~= subgroups_to_raw(init));
        assert(raws.last() == subgroup_to_raw(last));
        let p_all = forall|i: int| 0 <= i < subs.len() ==> subgroup_ok(#[trigger] subs[i]);
        let p_init = forall|i: int| 0 <= i < init.len() ==> subgroup_ok(#[trigger] init[i]);
        assert(p_all <==> p_init && subgroup_ok(last)) by {
            if p_all {
                assert forall|i: int| 0 <= i < init.len() implies subgroup_ok(#[trigger] init[i]) by {
                    assert(init[i] == subs[i]);
                }
                assert(subgroup_ok(subs[subs.len() - 1]));
            }
            if p_init && subgroup_ok(last) {
                assert forall|i: int| 0 <= i < subs.len() implies subgroup_ok(#[trigger] subs[i]) by {
                    if i < init.len() {
                        assert(init[i] == subs[i]);
                    }
                }
            }
        }
        match subgroups_len(init, Ok(a)) {
            Ok(b) => {},
            Err(e) => {
                assert(subgroups_len(subs, Ok(a)) == Err::<nat, ErrorView>(e));
            },
        }
    }
}

pub proof fn lemma_group_len(g: GroupView, a: nat)
    ensures
        group_len(g, Ok(a)) is Ok <==> group_ok(g) && a + raw_group_wire(group_to_raw(g)).len()
            <= usize::MAX,
        group_len(g, Ok(a)) is Ok ==> group_len(g, Ok(a))->Ok_0 == a + raw_group_wire(
            group_to_raw(g),
        ).len(),
        group_ok(g) ==> raw_group_ok(group_to_raw(g)),
{
    let raw = group_to_raw(g);
    let head = group_head_len(g, Ok(a));
    let hl = 15 + 4 + encode_utf8(g.id()).len() + (if g.parent() is Some {
        4 + encode_utf8(g.parent()->0).len()
    } else {
        0
    });
    assert(head is Ok <==> (text_ok(g.id()) && opt_text_ok(g.parent()) && number_ok(
        g.resolution(),
    ) && a + hl <= usize::MAX));
    assert(head is Ok ==> head->Ok_0 == a + hl);
    match g {
        GroupView::Composite(c) => {
            assert(raw_resources_wire(raw.resources) =~= Seq::<u8>::empty());
            assert(raw.subgroups == subgroups_to_raw(c.subgroups));
            let h = check(head, c.subgroups.len() <= I32_MAX, ErrorView::LengthOverflow { field: "subgroup"@ });
            match h {
                Ok(x) => {
                    lemma_subgroups_len(c.subgroups, x);
                },
                Err(e) => {
                    lemma_subgroups_err(c.subgroups, e);
                    lemma_subgroups_len(c.subgroups, 0);
                },
            }
            lemma_subgroups_len(c.subgroups, 0);
        },
        GroupView::Simple(s) => {
            assert(raw_subgroups_wire(raw.subgroups) =~= Seq::<u8>::empty());
            assert(raw.resources == resources_to_raw(s.resources));
            let h = check(head, s.resources.len() <= I32_MAX, ErrorView::LengthOverflow { field: "resource"@ });
            match h {
                Ok(x) => {
                    lemma_resources_len(s.resources, x);
                },
                Err(e) => {
                    lemma_resources_err(s.resources, e);
                    lemma_resources_len(s.resources, 0);
                },
            }
            lemma_resources_len(s.resources, 0);
        },
    }
}

pub proof fn lemma_groups_len(gs: Seq<GroupView>, a: nat)
    requires
        a <= usize::MAX,
    ensures
        groups_len(gs, Ok(a)) is Ok <==> (forall|i: int|
            0 <= i < gs.len() ==> group_ok(#[trigger] gs[i])) && a + raw_groups_wire(
            groups_to_raw(gs),
        ).len() <= usize::MAX,
        groups_len(gs, Ok(a)) is Ok ==> groups_len(gs, Ok(a))->Ok_0 == a + raw_groups_wire(
            groups_to_raw(gs),
        ).len(),
        (forall|i: int| 0 <= i < gs.len() ==> group_ok(#[trigger] gs[i])) ==> (forall|i: int|
            0 <= i < gs.len() ==> raw_group_ok(#[trigger] groups_to_raw(gs)[i])),
    decreases gs.len(),
{
    let raws = groups_to_raw(gs);
    assert forall|i: int| 0 <= i < gs.len() implies #[trigger] raws[i] == group_to_raw(gs[i]) by {}
    if gs.len() > 0 {
        let init = gs.drop_last();
        let last = gs.last();
        lemma_groups_len(init, a);
        assert(raws.drop_last() =~= groups_to_raw(init));
        assert(raws.last() == group_to_raw(last));
        let p_all = forall|i: int| 0 <= i < gs.len() ==> group_ok(#[trigger] gs[i]);
        let p_init = forall|i: int| 0 <= i < init.len() ==> group_ok(#[trigger] init[i]);
        assert(p_all <==> p_init && group_ok(last)) by {
            if p_all {
                assert forall|i: int| 0 <= i < init.len() implies group_ok(#[trigger] init[i]) by {
                    assert(init[i] == gs[i]);
                }
                assert(group_ok(gs[gs.len() - 1]));
            }
            if p_init && group_ok(last) {
                assert forall|i: int| 0 <= i < gs.len() implies group_ok(#[trigger] gs[i]) by {
                    if i < init.len() {
                        assert(init[i] == gs[i]);
                    }
                }
            }
        }
        lemma_group_len(last, a + raw_groups_wire(groups_to_raw(init)).len());
        if p_all {
            assert forall|i: int| 0 <= i < gs.len() implies raw_group_ok(#[trigger] raws[i]) by {
                lemma_group_len(gs[i], 0);
            }
        }
        match groups_len(init, Ok(a)) {
            Ok(b) => {},
            Err(e) => {
                lemma_group_err(last, e);
                assert(groups_len(gs, Ok(a)) == Err::<nat, ErrorView>(e));
            },
        }
    }
}

/// The semantic length computation succeeds exactly on documents whose
/// numbers, counts and strings fit their fields and whose bytes fit in
/// memory; then it is the number of bytes written, and the raw document that
/// is written is itself writable.
pub proof fn lemma_document_len(m: ManifestView)
    ensures
        document_len(m) is Ok <==> document_ok(m) && document_wire(m).len() <= usize::MAX,
        document_len(m) is Ok ==> document_len(m)->Ok_0 == document_wire(m).len(),
        document_ok(m) ==> raw_document_ok(manifest_to_raw(m)),
{
    lemma_groups_len(m.groups, 8);
    lemma_groups_err(m.groups, ErrorView::LengthOverflow { field: "group"@ });
    lemma_groups_err(m.groups, ErrorView::IntegerOutOfRange { field: "slot count"@, value: m.slot_count });
    let raw = manifest_to_raw(m);
    assert(raw.groups.len() == m.groups.len());
}

} // verus!
