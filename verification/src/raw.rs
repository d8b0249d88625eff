use crate::binary::format::add_len;
use crate::error::{ErrorView, NewtonError};
use crate::memory::reserve_exact;
use crate::text::decimal;
use crate::types::{
    opt_text, type_of_byte, CompositeGroup, CompositeGroupView, ResourceManifest, SimpleGroup, GroupView, ManifestView, Resource, ResourceGroup,
    ResourceType, ResourceView, SimpleGroupView, Subgroup, SubgroupView,
};
use vstd::string::StringExecFns;
use vstd::utf8::{decode_utf8, encode_utf8, valid_utf8};
use vstd::prelude::*;

verus! {

/// Wire-faithful NEWTON document.
///
/// Unlike [`crate::ResourceManifest`], this type preserves raw type and flag
/// bytes, optional ID/path fields, non-UTF-8 strings, mixed group contents,
/// and signed integer values. Use it for inspection, repair, and lossless
/// round-tripping of non-canonical files.
#[derive(Debug, Clone, PartialEq, Eq)]
pub struct RawResourceManifest<B = Vec<u8>> {
    pub slot_count: i32,
    pub groups: Vec<RawResourceGroup<B>>,
}

/// Wire-faithful group record.
#[derive(Debug, Clone, PartialEq, Eq)]
pub struct RawResourceGroup<B = Vec<u8>> {
    pub group_type: u8,
    pub resolution: i32,
    pub has_id: u8,
    pub has_parent: u8,
    pub id: Option<B>,
    pub parent: Option<B>,
    pub subgroups: Vec<RawSubgroup<B>>,
    pub resources: Vec<RawResource<B>>,
}

/// Wire-faithful composite subgroup record.
#[derive(Debug, Clone, PartialEq, Eq)]
pub struct RawSubgroup<B = Vec<u8>> {
    pub resolution: i32,
    pub id: B,
}

/// Wire-faithful resource record.
#[derive(Debug, Clone, PartialEq, Eq)]
pub struct RawResource<B = Vec<u8>> {
    pub resource_type: u8,
    pub slot: i32,
    pub width: i32,
    pub height: i32,
    pub x: i32,
    pub y: i32,
    pub ax: i32,
    pub ay: i32,
    pub aw: i32,
    pub ah: i32,
    pub cols: i32,
    pub rows: i32,
    pub atlas: u8,
    pub has_id: u8,
    pub has_path: u8,
    pub has_parent: u8,
    pub id: Option<B>,
    pub path: Option<B>,
    pub parent: Option<B>,
}

pub type OwnedRawResourceManifest = RawResourceManifest<Vec<u8>>;

pub type BorrowedRawResourceManifest<'a> = RawResourceManifest<&'a [u8]>;

/// A byte string that a raw record can hold: an owned vector or a borrowed
/// slice of the decoded input.
pub trait WireBytes: View<V = Seq<u8>> + Sized {
    fn wire_bytes(&self) -> (r: &[u8])
        ensures
            r@ == self@,
    ;

    /// Whether turning this kind of byte string into text copies the bytes,
    /// and so asks the allocator for room.
    spec fn copies_text() -> bool;

    /// The string's bytes read as UTF-8 text for `field`. A byte string
    /// that owns its bytes hands them over as they are; a borrowed one is
    /// copied.
    fn into_text(self, field: &'static str) -> (r: Result<String, NewtonError>)
        ensures
            conv_matches(r, text(self@, field@), Self::copies_text() && text_reserves(self@)),
            r matches Err(x) ==> !x@.is_context(),
    ;
}

impl WireBytes for Vec<u8> {
    fn wire_bytes(&self) -> (r: &[u8]) {
        self.as_slice()
    }

    open spec fn copies_text() -> bool {
        false
    }

    fn into_text(self, field: &'static str) -> (r: Result<String, NewtonError>) {
        match string_from_utf8(self) {
            Some(text) => {
                proof {
                    vstd::utf8::encode_utf8_decode_utf8(text@);
                }
                Ok(text)
            },
            None => Err(NewtonError::InvalidUtf8 { field }),
        }
    }
}

impl<'a> WireBytes for &'a [u8] {
    fn wire_bytes(&self) -> (r: &[u8]) {
        *self
    }

    open spec fn copies_text() -> bool {
        true
    }

    fn into_text(self, field: &'static str) -> (r: Result<String, NewtonError>) {
        let value = match str_from_utf8(self) {
            Some(value) => value,
            None => {
                return Err(NewtonError::InvalidUtf8 { field });
            },
        };
        proof {
            vstd::utf8::encode_utf8_decode_utf8(value@);
        }
        let mut owned = String::new();
        match string_try_reserve_exact(&mut owned, value.len()) {
            Ok(()) => {},
            Err(source) => {
                return Err(NewtonError::AllocationFailed { field, source });
            },
        }
        owned.append(value);
        assert(owned@ =~= value@);
        Ok(owned)
    }
}

// ----- mathematical models -----

/// The bytes of an optional byte string.
pub open spec fn opt_bytes<B: View<V = Seq<u8>>>(value: Option<B>) -> Option<Seq<u8>> {
    match value {
        Some(b) => Some(b@),
        None => None,
    }
}

pub struct RawSubgroupView {
    pub resolution: i32,
    pub id: Seq<u8>,
}

pub struct RawResourceView {
    pub resource_type: u8,
    pub slot: i32,
    pub width: i32,
    pub height: i32,
    pub x: i32,
    pub y: i32,
    pub ax: i32,
    pub ay: i32,
    pub aw: i32,
    pub ah: i32,
    pub cols: i32,
    pub rows: i32,
    pub atlas: u8,
    pub has_id: u8,
    pub has_path: u8,
    pub has_parent: u8,
    pub id: Option<Seq<u8>>,
    pub path: Option<Seq<u8>>,
    pub parent: Option<Seq<u8>>,
}

pub struct RawGroupView {
    pub group_type: u8,
    pub resolution: i32,
    pub has_id: u8,
    pub has_parent: u8,
    pub id: Option<Seq<u8>>,
    pub parent: Option<Seq<u8>>,
    pub subgroups: Seq<RawSubgroupView>,
    pub resources: Seq<RawResourceView>,
}

pub struct RawManifestView {
    pub slot_count: i32,
    pub groups: Seq<RawGroupView>,
}

impl<B: View<V = Seq<u8>>> View for RawSubgroup<B> {
    type V = RawSubgroupView;

    open spec fn view(&self) -> RawSubgroupView {
        RawSubgroupView { resolution: self.resolution, id: self.id@ }
    }
}

impl<B: View<V = Seq<u8>>> View for RawResource<B> {
    type V = RawResourceView;

    open spec fn view(&self) -> RawResourceView {
        RawResourceView {
            resource_type: self.resource_type,
            slot: self.slot,
            width: self.width,
            height: self.height,
            x: self.x,
            y: self.y,
            ax: self.ax,
            ay: self.ay,
            aw: self.aw,
            ah: self.ah,
            cols: self.cols,
            rows: self.rows,
            atlas: self.atlas,
            has_id: self.has_id,
            has_path: self.has_path,
            has_parent: self.has_parent,
            id: opt_bytes(self.id),
            path: opt_bytes(self.path),
            parent: opt_bytes(self.parent),
        }
    }
}

impl<B: View<V = Seq<u8>>> View for RawResourceGroup<B> {
    type V = RawGroupView;

    open spec fn view(&self) -> RawGroupView {
        RawGroupView {
            group_type: self.group_type,
            resolution: self.resolution,
            has_id: self.has_id,
            has_parent: self.has_parent,
            id: opt_bytes(self.id),
            parent: opt_bytes(self.parent),
            subgroups: self.subgroups@.map_values(|s: RawSubgroup<B>| s@),
            resources: self.resources@.map_values(|r: RawResource<B>| r@),
        }
    }
}

impl<B: View<V = Seq<u8>>> View for RawResourceManifest<B> {
    type V = RawManifestView;

    open spec fn view(&self) -> RawManifestView {
        RawManifestView {
            slot_count: self.slot_count,
            groups: self.groups@.map_values(|g: RawResourceGroup<B>| g@),
        }
    }
}


// ----- the estimated cost of a semantic conversion -----

/// Record sizes that the estimate charges.
pub struct AllocSizes {
    pub raw_group: nat,
    pub group: nat,
    pub raw_subgroup: nat,
    pub subgroup: nat,
    pub raw_resource: nat,
    pub resource: nat,
}

/// The record sizes of a raw document holding strings of type `B`.
pub open spec fn alloc_sizes<B>() -> AllocSizes {
    AllocSizes {
        raw_group: vstd::layout::size_of::<RawResourceGroup<B>>(),
        group: vstd::layout::size_of::<ResourceGroup>(),
        raw_subgroup: vstd::layout::size_of::<RawSubgroup<B>>(),
        subgroup: vstd::layout::size_of::<Subgroup>(),
        raw_resource: vstd::layout::size_of::<RawResource<B>>(),
        resource: vstd::layout::size_of::<Resource>(),
    }
}

pub open spec fn budget_add(r: Result<nat, ErrorView>, n: nat) -> Result<nat, ErrorView> {
    add_len(r, n, "semantic allocation estimate"@)
}

/// Add `count` records of `size` bytes.
pub open spec fn budget_records(r: Result<nat, ErrorView>, size: nat, count: nat) -> Result<
    nat,
    ErrorView,
> {
    match r {
        Ok(_) => if size * count > usize::MAX {
            Err(ErrorView::LengthOverflow { field: "semantic allocation estimate"@ })
        } else {
            budget_add(r, size * count)
        },
        Err(e) => Err(e),
    }
}

pub open spec fn budget_opt(r: Result<nat, ErrorView>, v: Option<Seq<u8>>) -> Result<nat, ErrorView> {
    match v {
        Some(b) => budget_add(r, b.len()),
        None => r,
    }
}

pub open spec fn budget_subgroups(subs: Seq<RawSubgroupView>, r: Result<nat, ErrorView>) -> Result<
    nat,
    ErrorView,
>
    decreases subs.len(),
{
    if subs.len() == 0 {
        r
    } else {
        budget_add(budget_subgroups(subs.drop_last(), r), subs.last().id.len())
    }
}

pub open spec fn budget_resource(res: RawResourceView, r: Result<nat, ErrorView>) -> Result<
    nat,
    ErrorView,
> {
    budget_opt(budget_opt(budget_opt(r, res.id), res.path), res.parent)
}

pub open spec fn budget_resources(rs: Seq<RawResourceView>, r: Result<nat, ErrorView>) -> Result<
    nat,
    ErrorView,
>
    decreases rs.len(),
{
    if rs.len() == 0 {
        r
    } else {
        budget_resource(rs.last(), budget_resources(rs.drop_last(), r))
    }
}

pub open spec fn budget_group(g: RawGroupView, r: Result<nat, ErrorView>, sz: AllocSizes) -> Result<
    nat,
    ErrorView,
> {
    let r = budget_records(r, sz.raw_subgroup, g.subgroups.len());
    let r = budget_records(r, sz.subgroup, g.subgroups.len());
    let r = budget_records(r, sz.raw_resource, g.resources.len());
    let r = budget_records(r, sz.resource, g.resources.len());
    let r = budget_opt(budget_opt(r, g.id), g.parent);
    budget_resources(g.resources, budget_subgroups(g.subgroups, r))
}

pub open spec fn budget_groups(gs: Seq<RawGroupView>, r: Result<nat, ErrorView>, sz: AllocSizes) -> Result<
    nat,
    ErrorView,
>
    decreases gs.len(),
{
    if gs.len() == 0 {
        r
    } else {
        budget_group(gs.last(), budget_groups(gs.drop_last(), r, sz), sz)
    }
}

/// What `ensure_semantic_allocation_budget` checks: the estimated bytes of
/// the raw records, of the semantic records, and of every string, against
/// `limit`, failing at the first overflow met in document order.
pub open spec fn semantic_budget(m: RawManifestView, limit: usize, sz: AllocSizes) -> Result<
    nat,
    ErrorView,
> {
    let start = budget_records(budget_records(Ok(0), sz.raw_group, m.groups.len()), sz.group, m.groups.len());
    match budget_groups(m.groups, start, sz) {
        Ok(b) => if b > limit {
            Err(ErrorView::AllocationLimitExceeded { requested: b as usize, limit })
        } else {
            Ok(b)
        },
        Err(e) => Err(e),
    }
}

proof fn lemma_budget_sticky(e: ErrorView, sz: AllocSizes)
    ensures
        forall|subs: Seq<RawSubgroupView>| #[trigger] budget_subgroups(subs, Err(e)) == Err::<nat, ErrorView>(e),
        forall|rs: Seq<RawResourceView>| #[trigger] budget_resources(rs, Err(e)) == Err::<nat, ErrorView>(e),
        forall|gs: Seq<RawGroupView>| #[trigger] budget_groups(gs, Err(e), sz) == Err::<nat, ErrorView>(e),
{
    assert forall|subs: Seq<RawSubgroupView>| #[trigger] budget_subgroups(subs, Err(e)) == Err::<nat, ErrorView>(e) by {
        lemma_budget_subgroups_err(subs, e);
    }
    assert forall|rs: Seq<RawResourceView>| #[trigger] budget_resources(rs, Err(e)) == Err::<nat, ErrorView>(e) by {
        lemma_budget_resources_err(rs, e);
    }
    assert forall|gs: Seq<RawGroupView>| #[trigger] budget_groups(gs, Err(e), sz) == Err::<nat, ErrorView>(e) by {
        lemma_budget_groups_err(gs, e, sz);
    }
}

proof fn lemma_budget_subgroups_err(subs: Seq<RawSubgroupView>, e: ErrorView)
    ensures
        budget_subgroups(subs, Err(e)) == Err::<nat, ErrorView>(e),
    decreases subs.len(),
{
    if subs.len() > 0 {
        lemma_budget_subgroups_err(subs.drop_last(), e);
    }
}

proof fn lemma_budget_resources_err(rs: Seq<RawResourceView>, e: ErrorView)
    ensures
        budget_resources(rs, Err(e)) == Err::<nat, ErrorView>(e),
    decreases rs.len(),
{
    if rs.len() > 0 {
        lemma_budget_resources_err(rs.drop_last(), e);
    }
}

proof fn lemma_budget_groups_err(gs: Seq<RawGroupView>, e: ErrorView, sz: AllocSizes)
    ensures
        budget_groups(gs, Err(e), sz) == Err::<nat, ErrorView>(e),
    decreases gs.len(),
{
    if gs.len() > 0 {
        lemma_budget_groups_err(gs.drop_last(), e, sz);
        lemma_budget_subgroups_err(gs.last().subgroups, e);
        lemma_budget_resources_err(gs.last().resources, e);
    }
}

proof fn lemma_budget_subgroups_prefix(subs: Seq<RawSubgroupView>, k: int, r: Result<nat, ErrorView>)
    requires
        0 <= k <= subs.len(),
        budget_subgroups(subs.take(k), r) is Err,
    ensures
        budget_subgroups(subs, r) == budget_subgroups(subs.take(k), r),
    decreases subs.len(),
{
    if k == subs.len() {
        assert(subs.take(k) =~= subs);
    } else {
        assert(subs.drop_last().take(k) =~= subs.take(k));
        lemma_budget_subgroups_prefix(subs.drop_last(), k, r);
    }
}

proof fn lemma_budget_resources_prefix(rs: Seq<RawResourceView>, k: int, r: Result<nat, ErrorView>)
    requires
        0 <= k <= rs.len(),
        budget_resources(rs.take(k), r) is Err,
    ensures
        budget_resources(rs, r) == budget_resources(rs.take(k), r),
    decreases rs.len(),
{
    if k == rs.len() {
        assert(rs.take(k) =~= rs);
    } else {
        assert(rs.drop_last().take(k) =~= rs.take(k));
        lemma_budget_resources_prefix(rs.drop_last(), k, r);
    }
}

proof fn lemma_budget_groups_prefix(gs: Seq<RawGroupView>, k: int, r: Result<nat, ErrorView>, sz: AllocSizes)
    requires
        0 <= k <= gs.len(),
        budget_groups(gs.take(k), r, sz) is Err,
    ensures
        budget_groups(gs, r, sz) == budget_groups(gs.take(k), r, sz),
    decreases gs.len(),
{
    if k == gs.len() {
        assert(gs.take(k) =~= gs);
    } else {
        assert(gs.drop_last().take(k) =~= gs.take(k));
        lemma_budget_groups_prefix(gs.drop_last(), k, r, sz);
        let e = budget_groups(gs.take(k), r, sz)->Err_0;
        lemma_budget_subgroups_err(gs.last().subgroups, e);
        lemma_budget_resources_err(gs.last().resources, e);
    }
}

fn checked_allocation_add(left: usize, right: usize) -> (r: Result<usize, NewtonError>)
    ensures
        crate::binary::writer::len_matches(r, budget_add(Ok(left as nat), right as nat)),
{
    match left.checked_add(right) {
        Some(sum) => Ok(sum),
        None => Err(NewtonError::LengthOverflow { field: "semantic allocation estimate" }),
    }
}

/// Add `count` records of `size` bytes to the estimate.
fn add_records(bytes: usize, size: usize, count: usize) -> (r: Result<usize, NewtonError>)
    ensures
        crate::binary::writer::len_matches(r, budget_records(Ok(bytes as nat), size as nat, count as nat)),
{
    let records = match size.checked_mul(count) {
        Some(records) => records,
        None => {
            return Err(NewtonError::LengthOverflow { field: "semantic allocation estimate" });
        },
    };
    checked_allocation_add(bytes, records)
}

fn add_optional_bytes<B: WireBytes>(bytes: usize, value: &Option<B>) -> (r: Result<usize, NewtonError>)
    ensures
        crate::binary::writer::len_matches(r, budget_opt(Ok(bytes as nat), opt_bytes(*value))),
{
    match value {
        Some(v) => checked_allocation_add(bytes, v.wire_bytes().len()),
        None => Ok(bytes),
    }
}

fn group_budget<B: WireBytes>(group: &RawResourceGroup<B>, bytes: usize, Ghost(sz): Ghost<AllocSizes>, sizes: (usize, usize, usize, usize)) -> (r: Result<usize, NewtonError>)
    requires
        sizes.0 == sz.raw_subgroup,
        sizes.1 == sz.subgroup,
        sizes.2 == sz.raw_resource,
        sizes.3 == sz.resource,
    ensures
        crate::binary::writer::len_matches(r, budget_group(group@, Ok(bytes as nat), sz)),
{
    let ghost g = group@;
    let ghost bytes0 = bytes;
    proof {
        lemma_budget_sticky(ErrorView::Io, sz);
        let r = budget_opt(budget_opt(budget_records(budget_records(budget_records(budget_records(Ok(bytes as nat), sz.raw_subgroup, g.subgroups.len()), sz.subgroup, g.subgroups.len()), sz.raw_resource, g.resources.len()), sz.resource, g.resources.len()), g.id), g.parent);
        if r is Err {
            lemma_budget_sticky(r->Err_0, sz);
        }
    }
    let b = add_records(bytes, sizes.0, group.subgroups.len())?;
    let b = add_records(b, sizes.1, group.subgroups.len())?;
    let b = add_records(b, sizes.2, group.resources.len())?;
    let b = add_records(b, sizes.3, group.resources.len())?;
    let b = add_optional_bytes(b, &group.id)?;
    let b = add_optional_bytes(b, &group.parent)?;
    let ghost head = budget_opt(budget_opt(budget_records(budget_records(budget_records(budget_records(Ok(bytes as nat), sz.raw_subgroup, g.subgroups.len()), sz.subgroup, g.subgroups.len()), sz.raw_resource, g.resources.len()), sz.resource, g.resources.len()), g.id), g.parent);
    assert(head == Ok::<nat, ErrorView>(b as nat));
    proof {
        assert forall|e: ErrorView| #[trigger] budget_resources(g.resources, Err(e)) == Err::<nat, ErrorView>(e) by {
            lemma_budget_sticky(e, sz);
        }
    }
    let mut acc = b;
    let mut i: usize = 0;
    while i < group.subgroups.len()
        invariant
            g == group@,
            i <= g.subgroups.len(),
            budget_subgroups(g.subgroups.take(i as int), head) == Ok::<nat, ErrorView>(acc as nat),
            budget_group(g, Ok(bytes0 as nat), sz) == budget_resources(g.resources, budget_subgroups(g.subgroups, head)),
            bytes0 == bytes,
            forall|e: ErrorView| #[trigger] budget_resources(g.resources, Err(e)) == Err::<nat, ErrorView>(e),
        decreases g.subgroups.len() - i,
    {
        proof {
            lemma_budget_sticky(ErrorView::Io, sz);
        }
        assert(g.subgroups.take(i + 1).drop_last() =~= g.subgroups.take(i as int));
        assert(g.subgroups.take(i + 1).last() == g.subgroups[i as int]);
        assert(g.subgroups[i as int] == group.subgroups[i as int]@);
        match checked_allocation_add(acc, group.subgroups[i].id.wire_bytes().len()) {
            Ok(n) => {
                acc = n;
                i = i + 1;
            },
            Err(e) => {
                proof {
                    lemma_budget_subgroups_prefix(g.subgroups, i + 1, head);
                }
                return Err(e);
            },
        }
    }
    assert(g.subgroups.take(i as int) =~= g.subgroups);
    let ghost mid = budget_subgroups(g.subgroups, head);
    let mut k: usize = 0;
    while k < group.resources.len()
        invariant
            g == group@,
            k <= g.resources.len(),
            budget_resources(g.resources.take(k as int), mid) == Ok::<nat, ErrorView>(acc as nat),
            budget_group(g, Ok(bytes0 as nat), sz) == budget_resources(g.resources, mid),
            bytes0 == bytes,
        decreases g.resources.len() - k,
    {
        assert(g.resources.take(k + 1).drop_last() =~= g.resources.take(k as int));
        assert(g.resources.take(k + 1).last() == g.resources[k as int]);
        let resource = &group.resources[k];
        assert(g.resources[k as int] == resource@);
        let step = match add_optional_bytes(acc, &resource.id) {
            Ok(n) => match add_optional_bytes(n, &resource.path) {
                Ok(n) => add_optional_bytes(n, &resource.parent),
                Err(e) => Err(e),
            },
            Err(e) => Err(e),
        };
        match step {
            Ok(n) => {
                acc = n;
                k = k + 1;
            },
            Err(e) => {
                proof {
                    lemma_budget_resources_prefix(g.resources, k + 1, mid);
                }
                return Err(e);
            },
        }
    }
    assert(g.resources.take(k as int) =~= g.resources);
    Ok(acc)
}

/// Check that converting `raw` into the semantic model stays within `limit`
/// estimated allocation bytes.
pub fn ensure_semantic_allocation_budget<B: WireBytes>(raw: &RawResourceManifest<B>, limit: usize) -> (r: Result<(), NewtonError>)
    ensures
        match semantic_budget(raw@, limit, alloc_sizes::<B>()) {
            Ok(_) => r is Ok,
            Err(e) => r matches Err(x) && x@ == e,
        },
{
    let ghost m = raw@;
    let ghost sz = alloc_sizes::<B>();
    let sizes = (
        core::mem::size_of::<RawSubgroup<B>>(),
        core::mem::size_of::<Subgroup>(),
        core::mem::size_of::<RawResource<B>>(),
        core::mem::size_of::<Resource>(),
    );
    proof {
        lemma_budget_sticky(ErrorView::Io, sz);
        let s1 = budget_records(Ok(0), sz.raw_group, m.groups.len());
        if s1 is Err {
            lemma_budget_sticky(s1->Err_0, sz);
        }
        let s2 = budget_records(s1, sz.group, m.groups.len());
        if s2 is Err {
            lemma_budget_sticky(s2->Err_0, sz);
        }
    }
    let bytes = add_records(0, core::mem::size_of::<RawResourceGroup<B>>(), raw.groups.len())?;
    let bytes = add_records(bytes, core::mem::size_of::<ResourceGroup>(), raw.groups.len())?;
    let ghost start = budget_records(budget_records(Ok(0), sz.raw_group, m.groups.len()), sz.group, m.groups.len());
    assert(start == Ok::<nat, ErrorView>(bytes as nat));
    let mut acc = bytes;
    let mut i: usize = 0;
    while i < raw.groups.len()
        invariant
            m == raw@,
            sz == alloc_sizes::<B>(),
            sizes.0 == sz.raw_subgroup,
            sizes.1 == sz.subgroup,
            sizes.2 == sz.raw_resource,
            sizes.3 == sz.resource,
            i <= m.groups.len(),
            budget_groups(m.groups.take(i as int), start, sz) == Ok::<nat, ErrorView>(acc as nat),
            start == budget_records(budget_records(Ok(0), sz.raw_group, m.groups.len()), sz.group, m.groups.len()),
        decreases m.groups.len() - i,
    {
        assert(m.groups.take(i + 1).drop_last() =~= m.groups.take(i as int));
        assert(m.groups.take(i + 1).last() == m.groups[i as int]);
        assert(m.groups[i as int] == raw.groups[i as int]@);
        match group_budget(&raw.groups[i], acc, Ghost(sz), sizes) {
            Ok(n) => {
                acc = n;
                i = i + 1;
            },
            Err(e) => {
                proof {
                    lemma_budget_groups_prefix(m.groups, i + 1, start, sz);
                }
                return Err(e);
            },
        }
    }
    assert(m.groups.take(i as int) =~= m.groups);
    if acc > limit {
        return Err(NewtonError::AllocationLimitExceeded { requested: acc, limit });
    }
    Ok(())
}


// ----- conversion into the semantic model -----

/// `std::str::from_utf8`: succeeds exactly on valid UTF-8, and the text it
/// gives has the input as its UTF-8 bytes.
#[verifier::external_body]
fn str_from_utf8(bytes: &[u8]) -> (r: Option<&str>)
    ensures
        r is Some <==> valid_utf8(bytes@),
        r matches Some(s) ==> encode_utf8(s@) == bytes@,
{
    std::str::from_utf8(bytes).ok()
}

/// `String::from_utf8`: succeeds exactly on valid UTF-8, and the text it
/// gives has the input as its UTF-8 bytes. The bytes are moved into the
/// `String`, not copied, so no allocation is made.
#[verifier::external_body]
fn string_from_utf8(bytes: Vec<u8>) -> (r: Option<String>)
    ensures
        r is Some <==> valid_utf8(bytes@),
        r matches Some(s) ==> encode_utf8(s@) == bytes@,
{
    String::from_utf8(bytes).ok()
}

/// `String::try_reserve_exact`: asks the allocator for room for
/// `additional` more bytes. Whether it succeeds depends on the allocator; the
/// text is left unchanged either way. Asking for no more room needs no
/// allocation: the capacity is already sufficient, and the call does nothing
/// and succeeds.
#[verifier::external_body]
fn string_try_reserve_exact(value: &mut String, additional: usize) -> (r: Result<
    (),
    std::collections::TryReserveError,
>)
    ensures
        final(value)@ == old(value)@,
        additional == 0 ==> r is Ok,
{
    value.try_reserve_exact(additional)
}

/// A conversion outcome agrees with its specification: a success gives the
/// specified value, and an error is the specified one unless the allocator
/// refused a reservation on the way.
pub open spec fn conv_matches<T: View>(
    r: Result<T, NewtonError>,
    s: Result<T::V, ErrorView>,
    reserves: bool,
) -> bool {
    match r {
        Ok(x) => s matches Ok(v) && x@ == v,
        Err(e) => (s matches Err(x) && e@ == x) || (reserves && e@.root() is AllocationFailed),
    }
}

/// Copying bytes into text reserves room for them when they are valid,
/// non-empty UTF-8.
pub open spec fn text_reserves(b: Seq<u8>) -> bool {
    valid_utf8(b) && b.len() > 0
}

/// Converting a required or optional string reserves room for its text
/// when the conversion `copies` the bytes.
pub open spec fn string_reserves(copies: bool, present: bool, v: Option<Seq<u8>>) -> bool {
    copies && present && (v matches Some(b) && text_reserves(b))
}

/// Whether converting a raw group reaches a reservation of non-zero size
/// before its outcome: for the text of its ID or parent when strings are
/// copied, or for a non-empty list of subgroups or resources. Nothing else
/// in a group conversion asks the allocator for room.
pub open spec fn group_reserves(copies: bool, g: RawGroupView) -> bool {
    match strict_bool(g.has_id, "group id flag"@) {
        Err(_) => false,
        Ok(has_id) => match strict_bool(g.has_parent, "group parent flag"@) {
            Err(_) => false,
            Ok(has_parent) => string_reserves(copies, has_id, g.id) || (required_text(
                has_id,
                g.id,
                "group id"@,
            ) is Ok && (string_reserves(copies, has_parent, g.parent) || (optional_text(
                has_parent,
                g.parent,
                "group parent"@,
            ) is Ok && optional_nonzero(g.resolution, "group resolution"@) is Ok && ((g.group_type
                == 1 && g.resources.len() == 0 && g.subgroups.len() > 0) || (g.group_type == 2
                && g.subgroups.len() == 0 && g.resources.len() > 0))))),
        },
    }
}

/// Whether converting a raw document asks the allocator for room: it
/// reserves the list of its groups first, after checking the slot count.
pub open spec fn manifest_reserves(m: RawManifestView) -> bool {
    m.slot_count >= 0 && m.groups.len() > 0
}

pub open spec fn strict_bool(v: u8, field: Seq<char>) -> Result<bool, ErrorView> {
    if v == 0 {
        Ok(false)
    } else if v == 1 {
        Ok(true)
    } else {
        Err(ErrorView::InvalidBoolean { field, value: v })
    }
}

pub open spec fn nonnegative(v: i32, field: Seq<char>) -> Result<u32, ErrorView> {
    if v >= 0 {
        Ok(v as u32)
    } else {
        Err(ErrorView::NegativeValue { field, value: v })
    }
}

/// A number where `0` means absent.
pub open spec fn optional_nonzero(v: i32, field: Seq<char>) -> Result<Option<u32>, ErrorView> {
    if v < 0 {
        Err(ErrorView::NegativeValue { field, value: v })
    } else if v == 0 {
        Ok(None)
    } else {
        Ok(Some(v as u32))
    }
}

/// A number where `1` means absent.
pub open spec fn optional_default_one(v: i32, field: Seq<char>) -> Result<Option<u32>, ErrorView> {
    if v < 0 {
        Err(ErrorView::NegativeValue { field, value: v })
    } else if v == 1 {
        Ok(None)
    } else {
        Ok(Some(v as u32))
    }
}

/// A coordinate where the sentinel `i32::MAX` means absent.
pub open spec fn optional_coordinate(v: i32) -> Option<i32> {
    if v == 0x7fff_ffff {
        None
    } else {
        Some(v)
    }
}

pub open spec fn type_result(v: u8) -> Result<ResourceType, ErrorView> {
    match type_of_byte(v) {
        Some(t) => Ok(t),
        None => Err(ErrorView::InvalidResourceType(v)),
    }
}

/// Bytes read as UTF-8 text.
pub open spec fn text(b: Seq<u8>, field: Seq<char>) -> Result<Seq<char>, ErrorView> {
    if valid_utf8(b) {
        Ok(decode_utf8(b))
    } else {
        Err(ErrorView::InvalidUtf8 { field })
    }
}

pub open spec fn required_text(present: bool, v: Option<Seq<u8>>, field: Seq<char>) -> Result<
    Seq<char>,
    ErrorView,
> {
    if !present {
        Err(ErrorView::MissingRequiredString { field })
    } else {
        match v {
            Some(b) => text(b, field),
            None => Err(ErrorView::InconsistentPresence { field, flag: 1, has_value: false }),
        }
    }
}

pub open spec fn optional_text(present: bool, v: Option<Seq<u8>>, field: Seq<char>) -> Result<
    Option<Seq<char>>,
    ErrorView,
> {
    if present && v is Some {
        match text(v->0, field) {
            Ok(s) => Ok(Some(s)),
            Err(e) => Err(e),
        }
    } else if !present && v is None {
        Ok(None)
    } else {
        Err(
            ErrorView::InconsistentPresence {
                field,
                flag: if present {
                    1
                } else {
                    0
                },
                has_value: v is Some,
            },
        )
    }
}

pub open spec fn convert_resource(r: RawResourceView) -> Result<ResourceView, ErrorView> {
    match strict_bool(r.has_id, "resource id flag"@) {
        Err(e) => Err(e),
        Ok(has_id) =>
        match strict_bool(r.has_path, "resource path flag"@) {
            Err(e) => Err(e),
            Ok(has_path) =>
            match strict_bool(r.has_parent, "resource parent flag"@) {
                Err(e) => Err(e),
                Ok(has_parent) =>
                match type_result(r.resource_type) {
                    Err(e) => Err(e),
                    Ok(resource_type) =>
                    match nonnegative(r.slot, "resource slot"@) {
                        Err(e) => Err(e),
                        Ok(slot) =>
                        match required_text(has_id, r.id, "resource id"@) {
                            Err(e) => Err(e),
                            Ok(id) =>
                            match required_text(has_path, r.path, "resource path"@) {
                                Err(e) => Err(e),
                                Ok(path) =>
                                match optional_nonzero(r.width, "resource width"@) {
                                    Err(e) => Err(e),
                                    Ok(width) =>
                                    match optional_nonzero(r.height, "resource height"@) {
                                        Err(e) => Err(e),
                                        Ok(height) =>
                                        match optional_nonzero(r.ax, "resource atlas x"@) {
                                            Err(e) => Err(e),
                                            Ok(ax) =>
                                            match optional_nonzero(r.ay, "resource atlas y"@) {
                                                Err(e) => Err(e),
                                                Ok(ay) =>
                                                match optional_nonzero(r.aw, "resource atlas width"@) {
                                                    Err(e) => Err(e),
                                                    Ok(aw) =>
                                                    match optional_nonzero(r.ah, "resource atlas height"@) {
                                                        Err(e) => Err(e),
                                                        Ok(ah) =>
                                                        match optional_default_one(r.cols, "resource columns"@) {
                                                            Err(e) => Err(e),
                                                            Ok(cols) =>
                                                            match optional_default_one(r.rows, "resource rows"@) {
                                                                Err(e) => Err(e),
                                                                Ok(rows) =>
                                                                match strict_bool(r.atlas, "resource atlas flag"@) {
                                                                    Err(e) => Err(e),
                                                                    Ok(atlas) =>
                                                                    match optional_text(has_parent, r.parent, "resource parent"@) {
                                                                        Err(e) => Err(e),
                                                                        Ok(parent) =>
                                                                        Ok(ResourceView { resource_type, slot, id, path, width, height, x: optional_coordinate(r.x), y: optional_coordinate(r.y), ax, ay, aw, ah, cols, rows, atlas, parent }),
                                                                    },
                                                                },
                                                            },
                                                        },
                                                    },
                                                },
                                            },
                                        },
                                    },
                                },
                            },
                        },
                    },
                },
            },
        },
    }
}

pub open spec fn convert_subgroup(s: RawSubgroupView) -> Result<SubgroupView, ErrorView> {
    match optional_nonzero(s.resolution, "subgroup resolution"@) {
        Err(e) => Err(e),
        Ok(resolution) => match text(s.id, "subgroup id"@) {
            Err(e) => Err(e),
            Ok(id) => Ok(SubgroupView { id, resolution }),
        },
    }
}

/// The error of the record at `index`, located.
pub open spec fn located(prefix: Seq<char>, index: int, e: ErrorView) -> ErrorView {
    ErrorView::SemanticContext {
        context: prefix + decimal(index as nat) + "]"@,
        source: Box::new(e),
    }
}

pub open spec fn convert_subgroups(subs: Seq<RawSubgroupView>) -> Result<Seq<SubgroupView>, ErrorView>
    decreases subs.len(),
{
    if subs.len() == 0 {
        Ok(Seq::empty())
    } else {
        match convert_subgroups(subs.drop_last()) {
            Err(e) => Err(e),
            Ok(prev) => match convert_subgroup(subs.last()) {
                Ok(s) => Ok(prev.push(s)),
                Err(e) => Err(located("subgroup["@, subs.len() - 1, e)),
            },
        }
    }
}

pub open spec fn convert_resources(rs: Seq<RawResourceView>) -> Result<Seq<ResourceView>, ErrorView>
    decreases rs.len(),
{
    if rs.len() == 0 {
        Ok(Seq::empty())
    } else {
        match convert_resources(rs.drop_last()) {
            Err(e) => Err(e),
            Ok(prev) => match convert_resource(rs.last()) {
                Ok(r) => Ok(prev.push(r)),
                Err(e) => Err(located("resource["@, rs.len() - 1, e)),
            },
        }
    }
}

pub open spec fn convert_group(g: RawGroupView) -> Result<GroupView, ErrorView> {
    match strict_bool(g.has_id, "group id flag"@) {
        Err(e) => Err(e),
        Ok(has_id) => match strict_bool(g.has_parent, "group parent flag"@) {
            Err(e) => Err(e),
            Ok(has_parent) => match required_text(has_id, g.id, "group id"@) {
                Err(e) => Err(e),
                Ok(id) => match optional_text(has_parent, g.parent, "group parent"@) {
                    Err(e) => Err(e),
                    Ok(parent) => match optional_nonzero(g.resolution, "group resolution"@) {
                        Err(e) => Err(e),
                        Ok(resolution) => if g.group_type == 1 {
                            if g.resources.len() > 0 {
                                Err(
                                    ErrorView::CompositeContainsResources {
                                        group: id,
                                        resources: g.resources.len() as usize,
                                    },
                                )
                            } else {
                                match convert_subgroups(g.subgroups) {
                                    Err(e) => Err(e),
                                    Ok(subgroups) => Ok(
                                        GroupView::Composite(
                                            CompositeGroupView { id, resolution, parent, subgroups },
                                        ),
                                    ),
                                }
                            }
                        } else if g.group_type == 2 {
                            if g.subgroups.len() > 0 {
                                Err(
                                    ErrorView::SimpleContainsSubgroups {
                                        group: id,
                                        subgroups: g.subgroups.len() as usize,
                                    },
                                )
                            } else {
                                match convert_resources(g.resources) {
                                    Err(e) => Err(e),
                                    Ok(resources) => Ok(
                                        GroupView::Simple(
                                            SimpleGroupView { id, resolution, parent, resources },
                                        ),
                                    ),
                                }
                            }
                        } else {
                            Err(ErrorView::InvalidGroupType(g.group_type))
                        },
                    },
                },
            },
        },
    }
}

pub open spec fn convert_groups(gs: Seq<RawGroupView>) -> Result<Seq<GroupView>, ErrorView>
    decreases gs.len(),
{
    if gs.len() == 0 {
        Ok(Seq::empty())
    } else {
        match convert_groups(gs.drop_last()) {
            Err(e) => Err(e),
            Ok(prev) => match convert_group(gs.last()) {
                Ok(g) => Ok(prev.push(g)),
                Err(e) => Err(located("group["@, gs.len() - 1, e)),
            },
        }
    }
}

/// The semantic document that a raw document stands for, or the first
/// defect met in document order.
pub open spec fn convert_manifest(m: RawManifestView) -> Result<ManifestView, ErrorView> {
    match nonnegative(m.slot_count, "slot count"@) {
        Err(e) => Err(e),
        Ok(slot_count) => match convert_groups(m.groups) {
            Err(e) => Err(e),
            Ok(groups) => Ok(ManifestView { slot_count, groups }),
        },
    }
}

proof fn lemma_convert_subgroups_prefix(subs: Seq<RawSubgroupView>, k: int)
    requires
        0 <= k <= subs.len(),
        convert_subgroups(subs.take(k)) is Err,
    ensures
        convert_subgroups(subs) == convert_subgroups(subs.take(k)),
    decreases subs.len(),
{
    if k == subs.len() {
        assert(subs.take(k) =~= subs);
    } else {
        assert(subs.drop_last().take(k) =~= subs.take(k));
        lemma_convert_subgroups_prefix(subs.drop_last(), k);
    }
}

proof fn lemma_convert_resources_prefix(rs: Seq<RawResourceView>, k: int)
    requires
        0 <= k <= rs.len(),
        convert_resources(rs.take(k)) is Err,
    ensures
        convert_resources(rs) == convert_resources(rs.take(k)),
    decreases rs.len(),
{
    if k == rs.len() {
        assert(rs.take(k) =~= rs);
    } else {
        assert(rs.drop_last().take(k) =~= rs.take(k));
        lemma_convert_resources_prefix(rs.drop_last(), k);
    }
}

proof fn lemma_convert_groups_prefix(gs: Seq<RawGroupView>, k: int)
    requires
        0 <= k <= gs.len(),
        convert_groups(gs.take(k)) is Err,
    ensures
        convert_groups(gs) == convert_groups(gs.take(k)),
    decreases gs.len(),
{
    if k == gs.len() {
        assert(gs.take(k) =~= gs);
    } else {
        assert(gs.drop_last().take(k) =~= gs.take(k));
        lemma_convert_groups_prefix(gs.drop_last(), k);
    }
}

/// A located error keeps the root cause of the error it wraps.
proof fn lemma_located_root(prefix: Seq<char>, index: int, e: ErrorView)
    ensures
        located(prefix, index, e).root() == e.root(),
{
}

fn strict_bool_of(value: u8, field: &'static str) -> (r: Result<bool, NewtonError>)
    ensures
        conv_matches(r, strict_bool(value, field@), false),
        r matches Err(x) ==> !x@.is_context(),
{
    match value {
        0 => Ok(false),
        1 => Ok(true),
        value => Err(NewtonError::InvalidBoolean { field, value }),
    }
}

fn nonnegative_of(value: i32, field: &'static str) -> (r: Result<u32, NewtonError>)
    ensures
        conv_matches(r, nonnegative(value, field@), false),
        r matches Err(x) ==> !x@.is_context(),
{
    if value >= 0 {
        Ok(value as u32)
    } else {
        Err(NewtonError::NegativeValue { field, value })
    }
}

fn optional_nonzero_of(value: i32, field: &'static str) -> (r: Result<Option<u32>, NewtonError>)
    ensures
        conv_matches(r, optional_nonzero(value, field@), false),
        r matches Err(x) ==> !x@.is_context(),
{
    let v = nonnegative_of(value, field)?;
    Ok(
        if v == 0 {
            None
        } else {
            Some(v)
        },
    )
}

fn optional_default_one_of(value: i32, field: &'static str) -> (r: Result<Option<u32>, NewtonError>)
    ensures
        conv_matches(r, optional_default_one(value, field@), false),
        r matches Err(x) ==> !x@.is_context(),
{
    let v = nonnegative_of(value, field)?;
    Ok(
        if v == 1 {
            None
        } else {
            Some(v)
        },
    )
}

fn optional_coordinate_of(value: i32) -> (r: Option<i32>)
    ensures
        r == optional_coordinate(value),
{
    if value != 0x7fff_ffff {
        Some(value)
    } else {
        None
    }
}

fn required_text_of<B: WireBytes>(present: bool, value: Option<B>, field: &'static str) -> (r: Result<
    String,
    NewtonError,
>)
    ensures
        conv_matches(
            r,
            required_text(present, opt_bytes(value), field@),
            string_reserves(B::copies_text(), present, opt_bytes(value)),
        ),
        r matches Err(x) ==> !x@.is_context(),
{
    if !present {
        return Err(NewtonError::MissingRequiredString { field });
    }
    match value {
        Some(v) => v.into_text(field),
        None => Err(NewtonError::InconsistentPresence { field, flag: 1, has_value: false }),
    }
}

fn optional_text_of<B: WireBytes>(present: bool, value: Option<B>, field: &'static str) -> (r: Result<
    Option<String>,
    NewtonError,
>)
    ensures
        match r {
            Ok(x) => optional_text(present, opt_bytes(value), field@) matches Ok(v) && opt_text(x) == v,
            Err(e) => (optional_text(present, opt_bytes(value), field@) matches Err(x) && e@ == x) || (
            string_reserves(B::copies_text(), present, opt_bytes(value)) && e@.root() is AllocationFailed),
        },
        r matches Err(x) ==> !x@.is_context(),
{
    let has_value = value.is_some();
    match value {
        Some(v) if present => {
            let s = v.into_text(field)?;
            Ok(Some(s))
        },
        None if !present => Ok(None),
        _ => Err(
            NewtonError::InconsistentPresence {
                field,
                flag: if present {
                    1
                } else {
                    0
                },
                has_value,
            },
        ),
    }
}

#[verifier::rlimit(60)]
fn convert_resource_of<B: WireBytes>(raw: RawResource<B>) -> (r: Result<Resource, NewtonError>)
    ensures
        conv_matches(r, convert_resource(raw@), true),
        r matches Err(x) ==> !x@.is_context(),
{
    let ghost v = raw@;
    let RawResource {
        resource_type,
        slot,
        width,
        height,
        x,
        y,
        ax,
        ay,
        aw,
        ah,
        cols,
        rows,
        atlas,
        has_id,
        has_path,
        has_parent,
        id,
        path,
        parent,
    } = raw;
    let has_id = strict_bool_of(has_id, "resource id flag")?;
    let has_path = strict_bool_of(has_path, "resource path flag")?;
    let has_parent = strict_bool_of(has_parent, "resource parent flag")?;
    let resource_type = match ResourceType::from_u8(resource_type) {
        Ok(t) => t,
        Err(e) => {
            return Err(e);
        },
    };
    let slot = nonnegative_of(slot, "resource slot")?;
    let id = required_text_of(has_id, id, "resource id")?;
    let path = required_text_of(has_path, path, "resource path")?;
    let width = optional_nonzero_of(width, "resource width")?;
    let height = optional_nonzero_of(height, "resource height")?;
    let x = optional_coordinate_of(x);
    let y = optional_coordinate_of(y);
    let ax = optional_nonzero_of(ax, "resource atlas x")?;
    let ay = optional_nonzero_of(ay, "resource atlas y")?;
    let aw = optional_nonzero_of(aw, "resource atlas width")?;
    let ah = optional_nonzero_of(ah, "resource atlas height")?;
    let cols = optional_default_one_of(cols, "resource columns")?;
    let rows = optional_default_one_of(rows, "resource rows")?;
    let atlas = strict_bool_of(atlas, "resource atlas flag")?;
    let parent = optional_text_of(has_parent, parent, "resource parent")?;
    Ok(Resource { resource_type, slot, id, path, width, height, x, y, ax, ay, aw, ah, cols, rows, atlas, parent })
}


fn convert_subgroup_of<B: WireBytes>(raw: RawSubgroup<B>) -> (r: Result<Subgroup, NewtonError>)
    ensures
        conv_matches(r, convert_subgroup(raw@), true),
        r matches Err(x) ==> !x@.is_context(),
{
    let RawSubgroup { resolution, id } = raw;
    let resolution = optional_nonzero_of(resolution, "subgroup resolution")?;
    let id = id.into_text("subgroup id")?;
    Ok(Subgroup { resolution, id })
}

/// Wrap the error of the record at `index` with its location.
fn locate(prefix: &'static str, index: usize, source: NewtonError) -> (r: NewtonError)
    ensures
        r@ == located(prefix@, index as int, source@),
{
    NewtonError::SemanticContext {
        context: crate::text::numbered(prefix, index, "]"),
        source: Box::new(source),
    }
}

fn convert_subgroups_of<B: WireBytes>(raw: Vec<RawSubgroup<B>>) -> (r: Result<Vec<Subgroup>, NewtonError>)
    ensures
        match r {
            Ok(x) => convert_subgroups(raw@.map_values(|s: RawSubgroup<B>| s@)) matches Ok(v) && x@.map_values(|s: Subgroup| s@) == v,
            Err(e) => (convert_subgroups(raw@.map_values(|s: RawSubgroup<B>| s@)) matches Err(x) && e@ == x) || (raw.len() > 0 && e@.root() is AllocationFailed),
        },
{
    let ghost subs = raw@.map_values(|s: RawSubgroup<B>| s@);
    let ghost items = raw@;
    let mut out: Vec<Subgroup> = Vec::new();
    reserve_exact(&mut out, raw.len(), "subgroup")?;
    assert(out@.map_values(|s: Subgroup| s@) =~= Seq::<SubgroupView>::empty());
    assert(subs.take(0) =~= Seq::<RawSubgroupView>::empty());
    let mut j: usize = 0;
    for item in it: raw.into_iter()
        invariant
            subs == items.map_values(|s: RawSubgroup<B>| s@),
            it.seq() == items,
            items.len() <= usize::MAX,
            j == it.index(),
            j <= subs.len(),
            convert_subgroups(subs.take(j as int)) == Ok::<Seq<SubgroupView>, ErrorView>(out@.map_values(|s: Subgroup| s@)),
    {
        assert(j < subs.len());
        assert(subs.take(j + 1).drop_last() =~= subs.take(j as int));
        assert(subs.take(j + 1).last() == item@);
        match convert_subgroup_of(item) {
            Ok(s) => {
                let ghost before = out@.map_values(|s: Subgroup| s@);
                out.push(s);
                assert(out@.map_values(|s: Subgroup| s@) =~= before.push(s@));
                j = j + 1;
            },
            Err(e) => {
                let located_error = locate("subgroup[", j, e);
                proof {
                    lemma_located_root("subgroup["@, j as int, e@);
                    if !(e@.root() is AllocationFailed) {
                        lemma_convert_subgroups_prefix(subs, j + 1);
                    }
                }
                return Err(located_error);
            },
        }
    }
    assert(subs.take(j as int) =~= subs);
    Ok(out)
}

fn convert_resources_of<B: WireBytes>(raw: Vec<RawResource<B>>) -> (r: Result<Vec<Resource>, NewtonError>)
    ensures
        match r {
            Ok(x) => convert_resources(raw@.map_values(|s: RawResource<B>| s@)) matches Ok(v) && x@.map_values(|s: Resource| s@) == v,
            Err(e) => (convert_resources(raw@.map_values(|s: RawResource<B>| s@)) matches Err(x) && e@ == x) || (raw.len() > 0 && e@.root() is AllocationFailed),
        },
{
    let ghost rs = raw@.map_values(|s: RawResource<B>| s@);
    let ghost items = raw@;
    let mut out: Vec<Resource> = Vec::new();
    reserve_exact(&mut out, raw.len(), "resource")?;
    assert(out@.map_values(|s: Resource| s@) =~= Seq::<ResourceView>::empty());
    assert(rs.take(0) =~= Seq::<RawResourceView>::empty());
    let mut k: usize = 0;
    for item in it: raw.into_iter()
        invariant
            rs == items.map_values(|s: RawResource<B>| s@),
            it.seq() == items,
            items.len() <= usize::MAX,
            k == it.index(),
            k <= rs.len(),
            convert_resources(rs.take(k as int)) == Ok::<Seq<ResourceView>, ErrorView>(out@.map_values(|s: Resource| s@)),
    {
        assert(k < rs.len());
        assert(rs.take(k + 1).drop_last() =~= rs.take(k as int));
        assert(rs.take(k + 1).last() == item@);
        match convert_resource_of(item) {
            Ok(s) => {
                let ghost before = out@.map_values(|s: Resource| s@);
                out.push(s);
                assert(out@.map_values(|s: Resource| s@) =~= before.push(s@));
                k = k + 1;
            },
            Err(e) => {
                let located_error = locate("resource[", k, e);
                proof {
                    lemma_located_root("resource["@, k as int, e@);
                    if !(e@.root() is AllocationFailed) {
                        lemma_convert_resources_prefix(rs, k + 1);
                    }
                }
                return Err(located_error);
            },
        }
    }
    assert(rs.take(k as int) =~= rs);
    Ok(out)
}

fn convert_group_of<B: WireBytes>(raw: RawResourceGroup<B>) -> (r: Result<ResourceGroup, NewtonError>)
    ensures
        conv_matches(r, convert_group(raw@), group_reserves(B::copies_text(), raw@)),
{
    let RawResourceGroup { group_type, resolution, has_id, has_parent, id, parent, subgroups, resources } = raw;
    let has_id = strict_bool_of(has_id, "group id flag")?;
    let has_parent = strict_bool_of(has_parent, "group parent flag")?;
    let id = required_text_of(has_id, id, "group id")?;
    let parent = optional_text_of(has_parent, parent, "group parent")?;
    let resolution = optional_nonzero_of(resolution, "group resolution")?;
    match group_type {
        1 => {
            if resources.len() > 0 {
                return Err(
                    NewtonError::CompositeContainsResources {
                        group: id,
                        resources: resources.len(),
                    },
                );
            }
            let subgroups = convert_subgroups_of(subgroups)?;
            Ok(ResourceGroup::Composite(CompositeGroup { id, resolution, parent, subgroups }))
        },
        2 => {
            if subgroups.len() > 0 {
                return Err(
                    NewtonError::SimpleContainsSubgroups {
                        group: id,
                        subgroups: subgroups.len(),
                    },
                );
            }
            let resources = convert_resources_of(resources)?;
            Ok(ResourceGroup::Simple(SimpleGroup { id, resolution, parent, resources }))
        },
        value => Err(NewtonError::InvalidGroupType(value)),
    }
}

/// Convert a raw document into the semantic model, checking every flag,
/// number and string. Owned strings are moved into the result; borrowed
/// ones are copied.
pub fn convert_raw<B: WireBytes>(raw: RawResourceManifest<B>) -> (r: Result<ResourceManifest, NewtonError>)
    ensures
        conv_matches(r, convert_manifest(raw@), manifest_reserves(raw@)),
{
    let ghost m = raw@;
    let ghost items = raw.groups@;
    let RawResourceManifest { slot_count, groups: raw_groups } = raw;
    let slot_count = nonnegative_of(slot_count, "slot count")?;
    let mut groups: Vec<ResourceGroup> = Vec::new();
    reserve_exact(&mut groups, raw_groups.len(), "group")?;
    assert(groups@.map_values(|g: ResourceGroup| g@) =~= Seq::<GroupView>::empty());
    assert(m.groups.take(0) =~= Seq::<RawGroupView>::empty());
    let mut i: usize = 0;
    for item in it: raw_groups.into_iter()
        invariant
            m == raw@,
            m.groups == items.map_values(|g: RawResourceGroup<B>| g@),
            it.seq() == items,
            items.len() <= usize::MAX,
            i == it.index(),
            i <= m.groups.len(),
            convert_groups(m.groups.take(i as int)) == Ok::<Seq<GroupView>, ErrorView>(groups@.map_values(|g: ResourceGroup| g@)),
            nonnegative(m.slot_count, "slot count"@) == Ok::<u32, ErrorView>(slot_count),
    {
        assert(i < m.groups.len());
        assert(m.groups.take(i + 1).drop_last() =~= m.groups.take(i as int));
        assert(m.groups.take(i + 1).last() == item@);
        match convert_group_of(item) {
            Ok(g) => {
                let ghost before = groups@.map_values(|g: ResourceGroup| g@);
                groups.push(g);
                assert(groups@.map_values(|g: ResourceGroup| g@) =~= before.push(g@));
                i = i + 1;
            },
            Err(e) => {
                let located_error = locate("group[", i, e);
                proof {
                    lemma_located_root("group["@, i as int, e@);
                    if !(e@.root() is AllocationFailed) {
                        lemma_convert_groups_prefix(m.groups, i + 1);
                    }
                }
                return Err(located_error);
            },
        }
    }
    assert(m.groups.take(i as int) =~= m.groups);
    Ok(ResourceManifest { slot_count, groups })
}


// ----- owned copies -----

pub(crate) fn copy_bytes(value: &[u8], field: &'static str) -> (r: Result<Vec<u8>, NewtonError>)
    ensures
        match r {
            Ok(v) => v@ == value@,
            Err(e) => e@ == (ErrorView::AllocationFailed { field: field@ }),
        },
{
    let mut owned: Vec<u8> = Vec::new();
    reserve_exact(&mut owned, value.len(), field)?;
    let mut i: usize = 0;
    while i < value.len()
        invariant
            i <= value@.len(),
            owned@ == value@.take(i as int),
        decreases value@.len() - i,
    {
        owned.push(value[i]);
        i = i + 1;
        assert(value@.take(i as int) =~= value@.take(i - 1).push(value@[i - 1]));
    }
    assert(value@.take(i as int) =~= value@);
    Ok(owned)
}

fn copy_optional(value: &Option<&[u8]>, field: &'static str) -> (r: Result<Option<Vec<u8>>, NewtonError>)
    ensures
        match r {
            Ok(v) => opt_bytes(v) == opt_bytes(*value),
            Err(e) => e@ == (ErrorView::AllocationFailed { field: field@ }),
        },
{
    match value {
        Some(v) => {
            let copied = copy_bytes(v, field)?;
            Ok(Some(copied))
        },
        None => Ok(None),
    }
}

fn copy_resource(resource: &RawResource<&[u8]>) -> (r: Result<RawResource<Vec<u8>>, NewtonError>)
    ensures
        match r {
            Ok(v) => v@ == resource@,
            Err(e) => e@ is AllocationFailed,
        },
{
    let id = copy_optional(&resource.id, "resource id")?;
    let path = copy_optional(&resource.path, "resource path")?;
    let parent = copy_optional(&resource.parent, "resource parent")?;
    Ok(RawResource {
        resource_type: resource.resource_type,
        slot: resource.slot,
        width: resource.width,
        height: resource.height,
        x: resource.x,
        y: resource.y,
        ax: resource.ax,
        ay: resource.ay,
        aw: resource.aw,
        ah: resource.ah,
        cols: resource.cols,
        rows: resource.rows,
        atlas: resource.atlas,
        has_id: resource.has_id,
        has_path: resource.has_path,
        has_parent: resource.has_parent,
        id,
        path,
        parent,
    })
}

fn copy_group(group: &RawResourceGroup<&[u8]>) -> (r: Result<RawResourceGroup<Vec<u8>>, NewtonError>)
    ensures
        match r {
            Ok(v) => v@ == group@,
            Err(e) => e@ is AllocationFailed,
        },
{
    let ghost g = group@;
    let mut subgroups: Vec<RawSubgroup<Vec<u8>>> = Vec::new();
    reserve_exact(&mut subgroups, group.subgroups.len(), "owned raw subgroups")?;
    let mut i: usize = 0;
    assert(subgroups@.map_values(|s: RawSubgroup<Vec<u8>>| s@) =~= g.subgroups.take(0));
    while i < group.subgroups.len()
        invariant
            g == group@,
            i <= g.subgroups.len(),
            subgroups@.map_values(|s: RawSubgroup<Vec<u8>>| s@) == g.subgroups.take(i as int),
        decreases g.subgroups.len() - i,
    {
        let subgroup = &group.subgroups[i];
        let id = copy_bytes(subgroup.id, "subgroup id")?;
        let ghost before = subgroups@.map_values(|s: RawSubgroup<Vec<u8>>| s@);
        subgroups.push(RawSubgroup { resolution: subgroup.resolution, id });
        assert(subgroups@.map_values(|s: RawSubgroup<Vec<u8>>| s@) =~= before.push(subgroup@));
        assert(g.subgroups.take(i + 1) =~= g.subgroups.take(i as int).push(g.subgroups[i as int]));
        i = i + 1;
    }
    let mut resources: Vec<RawResource<Vec<u8>>> = Vec::new();
    reserve_exact(&mut resources, group.resources.len(), "owned raw resources")?;
    let mut k: usize = 0;
    assert(resources@.map_values(|s: RawResource<Vec<u8>>| s@) =~= g.resources.take(0));
    while k < group.resources.len()
        invariant
            g == group@,
            k <= g.resources.len(),
            subgroups@.map_values(|s: RawSubgroup<Vec<u8>>| s@) == g.subgroups,
            resources@.map_values(|s: RawResource<Vec<u8>>| s@) == g.resources.take(k as int),
        decreases g.resources.len() - k,
    {
        let resource = copy_resource(&group.resources[k])?;
        let ghost before = resources@.map_values(|s: RawResource<Vec<u8>>| s@);
        resources.push(resource);
        assert(resources@.map_values(|s: RawResource<Vec<u8>>| s@) =~= before.push(resource@));
        assert(g.resources.take(k + 1) =~= g.resources.take(k as int).push(g.resources[k as int]));
        k = k + 1;
    }
    let id = copy_optional(&group.id, "group id")?;
    let parent = copy_optional(&group.parent, "group parent")?;
    let owned = RawResourceGroup {
        group_type: group.group_type,
        resolution: group.resolution,
        has_id: group.has_id,
        has_parent: group.has_parent,
        id,
        parent,
        subgroups,
        resources,
    };
    assert(g.subgroups.take(i as int) =~= g.subgroups);
    assert(g.resources.take(k as int) =~= g.resources);
    assert(owned@ =~= g);
    Ok(owned)
}

impl<'a> RawResourceManifest<&'a [u8]> {
    /// Copy a borrowed raw document into independently owned byte buffers.
    pub fn try_into_owned(self) -> (r: Result<OwnedRawResourceManifest, NewtonError>)
        ensures
            match r {
                Ok(m) => m@ == self@,
                Err(e) => e@ is AllocationFailed && self@.groups.len() > 0,
            },
    {
        let ghost m = self@;
        let mut groups: Vec<RawResourceGroup<Vec<u8>>> = Vec::new();
        reserve_exact(&mut groups, self.groups.len(), "owned raw groups")?;
        let mut i: usize = 0;
        assert(groups@.map_values(|g: RawResourceGroup<Vec<u8>>| g@) =~= m.groups.take(0));
        while i < self.groups.len()
            invariant
                m == self@,
                i <= m.groups.len(),
                groups@.map_values(|g: RawResourceGroup<Vec<u8>>| g@) == m.groups.take(i as int),
            decreases m.groups.len() - i,
        {
            let group = copy_group(&self.groups[i])?;
            let ghost before = groups@.map_values(|g: RawResourceGroup<Vec<u8>>| g@);
            groups.push(group);
            assert(groups@.map_values(|g: RawResourceGroup<Vec<u8>>| g@) =~= before.push(group@));
            assert(m.groups.take(i + 1) =~= m.groups.take(i as int).push(m.groups[i as int]));
            i = i + 1;
        }
        assert(m.groups.take(i as int) =~= m.groups);
        let owned = RawResourceManifest { slot_count: self.slot_count, groups };
        assert(owned@ =~= m);
        Ok(owned)
    }
}


/// The outcome of the conversion also depends on the allocator, so no
/// function of the document alone describes it, and the conversion does not
/// claim to follow one: `try_from` states its outcome in its own `ensures`.
impl vstd::std_specs::convert::TryFromSpecImpl<RawResourceManifest<Vec<u8>>> for ResourceManifest {
    open spec fn obeys_try_from_spec() -> bool {
        false
    }

    open spec fn try_from_spec(raw: RawResourceManifest<Vec<u8>>) -> Result<Self, NewtonError> {
        Err(NewtonError::InvalidGroupType(0))
    }
}

impl TryFrom<RawResourceManifest<Vec<u8>>> for ResourceManifest {
    type Error = NewtonError;

    fn try_from(raw: RawResourceManifest<Vec<u8>>) -> (r: Result<ResourceManifest, NewtonError>)
        ensures
            conv_matches(r, convert_manifest(raw@), manifest_reserves(raw@)),
    {
        convert_raw(raw)
    }
}


/// As for owned documents, `try_from` states its outcome in its own
/// `ensures`.
impl<'a> vstd::std_specs::convert::TryFromSpecImpl<RawResourceManifest<&'a [u8]>> for ResourceManifest {
    open spec fn obeys_try_from_spec() -> bool {
        false
    }

    open spec fn try_from_spec(raw: RawResourceManifest<&'a [u8]>) -> Result<Self, NewtonError> {
        Err(NewtonError::InvalidGroupType(0))
    }
}

impl<'a> TryFrom<RawResourceManifest<&'a [u8]>> for ResourceManifest {
    type Error = NewtonError;

    fn try_from(raw: RawResourceManifest<&'a [u8]>) -> (r: Result<ResourceManifest, NewtonError>)
        ensures
            conv_matches(r, convert_manifest(raw@), manifest_reserves(raw@)),
    {
        convert_raw(raw)
    }
}

} // verus!
