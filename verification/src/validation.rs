//! Cross-record checks of a manifest against PvZ2 runtime and canonical
//! constraints.
use crate::text::{decimal, numbered, push_decimal};
use crate::types::{
    GroupView, ManifestView, Resource, ResourceGroup, ResourceManifest, ResourceType, ResourceView,
    SimpleGroup,
    SimpleGroupView,
};
use std::collections::HashMap;
use vstd::hash_map::StringHashMap;
use vstd::string::StringExecFns;
use vstd::prelude::*;

verus! {

#[derive(Debug, Clone, Copy, PartialEq, Eq, Structural)]
pub enum ValidationProfile {
    /// Constraints required to avoid the known PvZ2 runtime truncation,
    /// duplicate registration, and broken reference behavior.
    Pvz2Runtime,
    /// Runtime constraints plus the normalized invariants used by official
    /// generated manifests.
    Canonical,
}

#[derive(Debug, Clone, Copy, PartialEq, Eq, Structural)]
pub enum ValidationSeverity {
    Warning,
    Error,
}

#[derive(Debug, Clone, Copy, PartialEq, Eq, Hash, Structural)]
pub enum ValidationCode {
    DuplicateGroupId,
    DuplicateResourceId,
    DuplicateSlot,
    SlotOutOfRange,
    IncompleteSlotTable,
    MissingGroupReference,
    WrongGroupReferenceKind,
    MissingAtlasReference,
    InvalidAtlasReference,
    InvalidAtlasImage,
    InvalidSprite,
    GeometryOutOfRange,
    InvalidGridSize,
    UnexpectedResourceMetadata,
}

#[derive(Debug, Clone, PartialEq, Eq)]
pub struct ValidationIssue {
    pub severity: ValidationSeverity,
    pub code: ValidationCode,
    pub path: String,
    pub message: String,
}

#[derive(Debug, Clone, PartialEq, Eq)]
pub struct ValidationReport {
    pub issues: Vec<ValidationIssue>,
}

// ----- mathematical model -----

pub struct IssueView {
    pub severity: ValidationSeverity,
    pub code: ValidationCode,
    pub path: Seq<char>,
    pub message: Seq<char>,
}

impl View for ValidationIssue {
    type V = IssueView;

    open spec fn view(&self) -> IssueView {
        IssueView {
            severity: self.severity,
            code: self.code,
            path: self.path@,
            message: self.message@,
        }
    }
}

impl View for ValidationReport {
    type V = Seq<IssueView>;

    open spec fn view(&self) -> Seq<IssueView> {
        self.issues@.map_values(|i: ValidationIssue| i@)
    }
}

/// The text that `{:?}` formatting gives for a string: the string quoted,
/// with quotes, backslashes and non-printable characters escaped.
pub uninterp spec fn debug_text(s: Seq<char>) -> Seq<char>;

/// `format!("{:?}", s)` for a string slice: std's `Debug` formatting, which
/// quotes and escapes the text. The result is named, not spelled out.
#[verifier::external_body]
fn debug_string(s: &str) -> (r: String)
    ensures
        r@ == debug_text(s@),
{
    format!("{:?}", s)
}

/// Where a resource was registered: its group and index, and the resolution
/// and parent of that group.
pub struct LocationView {
    pub group_index: int,
    pub resource_index: int,
    pub resolution: Option<u32>,
    pub parent: Option<Seq<char>>,
}

/// Resolution-specific children of the same composite group are
/// alternatives: PvZ2 selects one resolution at runtime, so they may reuse
/// resource IDs and slots. Common children (no resolution) remain loadable
/// together with the selected resolution and are not exempt.
pub open spec fn mutually_exclusive(left: LocationView, right: LocationView) -> bool {
    &&& left.group_index != right.group_index
    &&& left.parent matches Some(lp) && right.parent matches Some(rp) && lp == rp
    &&& left.resolution matches Some(lr) && right.resolution matches Some(rr) && lr != rr
}

/// A resource of a simple group, with where it was registered.
pub struct EntryView {
    pub location: LocationView,
    pub id: Seq<char>,
    pub slot: u32,
}

/// The resources that group `i` registers, in order.
pub open spec fn group_entries(g: GroupView, i: int) -> Seq<EntryView> {
    match g {
        GroupView::Simple(s) => Seq::new(
            s.resources.len(),
            |j: int|
                EntryView {
                    location: LocationView {
                        group_index: i,
                        resource_index: j,
                        resolution: s.resolution,
                        parent: s.parent,
                    },
                    id: s.resources[j].id,
                    slot: s.resources[j].slot,
                },
        ),
        GroupView::Composite(_) => Seq::empty(),
    }
}

/// The resources that the first `i` groups register, in order.
pub open spec fn entries_before(groups: Seq<GroupView>, i: int) -> Seq<EntryView>
    decreases i,
{
    if i <= 0 {
        Seq::empty()
    } else {
        entries_before(groups, i - 1) + group_entries(groups[i - 1], i - 1)
    }
}

/// The ID of a registered resource.
pub open spec fn by_id() -> spec_fn(EntryView) -> Seq<char> {
    |e: EntryView| e.id
}

/// The slot of a registered resource.
pub open spec fn by_slot() -> spec_fn(EntryView) -> u32 {
    |e: EntryView| e.slot
}

/// The first earlier resource with the same key (ID or slot) as `e` that
/// can be loaded together with `e`.
pub open spec fn first_clash<K>(prev: Seq<EntryView>, e: EntryView, key: spec_fn(EntryView) -> K) -> Option<
    EntryView,
>
    decreases prev.len(),
{
    if prev.len() == 0 {
        None
    } else if key(prev[0]) == key(e) && !mutually_exclusive(prev[0].location, e.location) {
        Some(prev[0])
    } else {
        first_clash(prev.drop_first(), e, key)
    }
}

/// The last of the first `bound` groups with ID `id`: the one that a lookup
/// by ID finds, since a later group with the same ID replaces an earlier one.
pub open spec fn last_group_with_id(groups: Seq<GroupView>, bound: int, id: Seq<char>) -> Option<
    int,
>
    decreases bound,
{
    if bound <= 0 {
        None
    } else if groups[bound - 1].id() == id {
        Some(bound - 1)
    } else {
        last_group_with_id(groups, bound - 1, id)
    }
}

/// The last of the first `bound` resources with ID `id`.
pub open spec fn last_resource_with_id(rs: Seq<ResourceView>, bound: int, id: Seq<char>) -> Option<
    int,
>
    decreases bound,
{
    if bound <= 0 {
        None
    } else if rs[bound - 1].id == id {
        Some(bound - 1)
    } else {
        last_resource_with_id(rs, bound - 1, id)
    }
}

// ----- the issues, in the order they are reported -----

pub open spec fn error_if(cond: bool, code: ValidationCode, path: Seq<char>, message: Seq<char>) -> Seq<
    IssueView,
> {
    if cond {
        seq![IssueView { severity: ValidationSeverity::Error, code, path, message }]
    } else {
        Seq::empty()
    }
}

pub open spec fn group_path(i: int) -> Seq<char> {
    "groups["@ + decimal(i as nat) + "]"@
}

pub open spec fn resource_path(i: int, j: int) -> Seq<char> {
    group_path(i) + ".resources["@ + decimal(j as nat) + "]"@
}

/// Atlas geometry that the runtime stores in 16 bits.
pub open spec fn geometry_issue(path: Seq<char>, field: Seq<char>, value: Option<u32>) -> Seq<
    IssueView,
> {
    error_if(
        value matches Some(v) && v > 0xffff,
        ValidationCode::GeometryOutOfRange,
        path + "."@ + field,
        field + " exceeds 16-bit storage and would be truncated by the PvZ2 runtime"@,
    )
}

pub open spec fn grid_issue(path: Seq<char>, field: Seq<char>, value: Option<u32>) -> Seq<IssueView> {
    error_if(
        value == Some(0u32),
        ValidationCode::InvalidGridSize,
        path + "."@ + field,
        field + " must be at least 1"@,
    )
}

pub open spec fn has_image_metadata(r: ResourceView) -> bool {
    ||| r.width is Some
    ||| r.height is Some
    ||| r.x is Some
    ||| r.y is Some
    ||| r.ax is Some
    ||| r.ay is Some
    ||| r.aw is Some
    ||| r.ah is Some
    ||| r.cols is Some
    ||| r.rows is Some
    ||| r.atlas
    ||| r.parent is Some
}

/// The checks that depend on the kind of resource.
pub open spec fn kind_issues(r: ResourceView, path: Seq<char>, canonical: bool) -> Seq<IssueView> {
    if r.resource_type == ResourceType::Image {
        if r.atlas {
            error_if(
                r.parent is Some || r.width is None || r.height is None || r.width == Some(0u32)
                    || r.height == Some(0u32),
                ValidationCode::InvalidAtlasImage,
                path,
                "atlas image must have non-zero width/height and no parent"@,
            )
        } else if r.parent is Some {
            error_if(
                r.atlas || r.x is None || r.y is None || r.aw is None || r.ah is None || r.aw
                    == Some(0u32) || r.ah == Some(0u32),
                ValidationCode::InvalidSprite,
                path,
                "sprite image must have x/y/aw/ah, a parent, and atlas=false"@,
            ) + error_if(
                canonical && (r.width is Some || r.height is Some),
                ValidationCode::UnexpectedResourceMetadata,
                path,
                "canonical sprite image does not store width/height"@,
            )
        } else {
            Seq::empty()
        }
    } else if has_image_metadata(r) {
        seq![
            IssueView {
                severity: if canonical {
                    ValidationSeverity::Error
                } else {
                    ValidationSeverity::Warning
                },
                code: ValidationCode::UnexpectedResourceMetadata,
                path,
                message: "non-Image resource contains image-only metadata"@,
            },
        ]
    } else {
        Seq::empty()
    }
}

/// The checks of one resource record on its own.
pub open spec fn resource_issues(r: ResourceView, path: Seq<char>, canonical: bool) -> Seq<
    IssueView,
> {
    geometry_issue(path, "ax"@, r.ax) + geometry_issue(path, "ay"@, r.ay) + geometry_issue(
        path,
        "aw"@,
        r.aw,
    ) + geometry_issue(path, "ah"@, r.ah) + grid_issue(path, "cols"@, r.cols) + grid_issue(
        path,
        "rows"@,
        r.rows,
    ) + kind_issues(r, path, canonical)
}

pub open spec fn error(code: ValidationCode, path: Seq<char>, message: Seq<char>) -> IssueView {
    IssueView { severity: ValidationSeverity::Error, code, path, message }
}

/// The report of a group whose ID an earlier group already used.
pub open spec fn duplicate_group_issue(m: ManifestView, i: int) -> Seq<IssueView> {
    let id = m.groups[i].id();
    match last_group_with_id(m.groups, i, id) {
        Some(k) => seq![
            error(
                ValidationCode::DuplicateGroupId,
                group_path(i) + ".id"@,
                "group ID "@ + debug_text(id) + " was already defined by groups["@ + decimal(
                    k as nat,
                ) + "]"@,
            ),
        ],
        None => Seq::empty(),
    }
}

/// The report of a resource whose ID clashes with an earlier one.
pub open spec fn id_clash_issue(path: Seq<char>, id: Seq<char>, clash: Option<EntryView>) -> Seq<
    IssueView,
> {
    match clash {
        Some(p) => seq![
            error(
                ValidationCode::DuplicateResourceId,
                path + ".id"@,
                "resource ID "@ + debug_text(id) + " was already defined by "@ + "groups["@
                    + decimal(p.location.group_index as nat) + "].resources["@ + decimal(
                    p.location.resource_index as nat,
                ) + "]"@,
            ),
        ],
        None => Seq::empty(),
    }
}

/// The report of a resource whose slot clashes with an earlier one.
pub open spec fn slot_clash_issue(path: Seq<char>, slot: u32, clash: Option<EntryView>) -> Seq<
    IssueView,
> {
    match clash {
        Some(p) => seq![
            error(
                ValidationCode::DuplicateSlot,
                path + ".slot"@,
                "slot "@ + decimal(slot as nat) + " was already used by "@ + "groups["@ + decimal(
                    p.location.group_index as nat,
                ) + "].resources["@ + decimal(p.location.resource_index as nat) + "]"@,
            ),
        ],
        None => Seq::empty(),
    }
}

pub open spec fn slot_range_issue(path: Seq<char>, slot: u32, slot_count: u32) -> Seq<IssueView> {
    error_if(
        slot >= slot_count,
        ValidationCode::SlotOutOfRange,
        path + ".slot"@,
        "slot "@ + decimal(slot as nat) + " is outside slot_count "@ + decimal(slot_count as nat),
    )
}

/// The checks made while registering resource `j` of simple group `i`:
/// its ID and slot against the resources registered before it, its slot
/// against the slot count, then the record on its own.
pub open spec fn registration_issues(
    m: ManifestView,
    i: int,
    s: SimpleGroupView,
    j: int,
    canonical: bool,
) -> Seq<IssueView> {
    let path = resource_path(i, j);
    let r = s.resources[j];
    let entries = group_entries(GroupView::Simple(s), i);
    let e = entries[j];
    let prev = entries_before(m.groups, i) + entries.take(j);
    id_clash_issue(path, r.id, first_clash(prev, e, by_id())) + slot_range_issue(
        path,
        r.slot,
        m.slot_count,
    ) + slot_clash_issue(path, r.slot, first_clash(prev, e, by_slot())) + resource_issues(
        r,
        path,
        canonical,
    )
}

pub open spec fn registrations(
    m: ManifestView,
    i: int,
    s: SimpleGroupView,
    j: int,
    canonical: bool,
) -> Seq<IssueView>
    decreases j,
{
    if j <= 0 {
        Seq::empty()
    } else {
        registrations(m, i, s, j - 1, canonical) + registration_issues(m, i, s, j - 1, canonical)
    }
}

pub open spec fn group_registration_issues(m: ManifestView, i: int, canonical: bool) -> Seq<
    IssueView,
> {
    duplicate_group_issue(m, i) + match m.groups[i] {
        GroupView::Simple(s) => registrations(m, i, s, s.resources.len() as int, canonical),
        GroupView::Composite(_) => Seq::empty(),
    }
}

/// The first pass: every group registered in order, with the checks made on
/// the way.
pub open spec fn registration_pass(m: ManifestView, i: int, canonical: bool) -> Seq<IssueView>
    decreases i,
{
    if i <= 0 {
        Seq::empty()
    } else {
        registration_pass(m, i - 1, canonical) + group_registration_issues(m, i - 1, canonical)
    }
}

/// A group's parent must name a composite group.
pub open spec fn parent_issue(m: ManifestView, i: int) -> Seq<IssueView> {
    match m.groups[i].parent() {
        None => Seq::empty(),
        Some(p) => match last_group_with_id(m.groups, m.groups.len() as int, p) {
            None => seq![
                error(
                    ValidationCode::MissingGroupReference,
                    group_path(i) + ".parent"@,
                    "parent group "@ + debug_text(p) + " does not exist"@,
                ),
            ],
            Some(k) => if m.groups[k] is Composite {
                Seq::empty()
            } else {
                seq![
                    error(
                        ValidationCode::WrongGroupReferenceKind,
                        group_path(i) + ".parent"@,
                        "parent group "@ + debug_text(p) + " is not composite"@,
                    ),
                ]
            },
        },
    }
}

/// A subgroup entry must name a simple group.
pub open spec fn subgroup_issue(m: ManifestView, i: int, k: int, id: Seq<char>) -> Seq<IssueView> {
    let path = group_path(i) + ".subgroups["@ + decimal(k as nat) + "].id"@;
    match last_group_with_id(m.groups, m.groups.len() as int, id) {
        None => seq![
            error(
                ValidationCode::MissingGroupReference,
                path,
                "subgroup "@ + debug_text(id) + " does not exist"@,
            ),
        ],
        Some(x) => if m.groups[x] is Composite {
            seq![
                error(
                    ValidationCode::WrongGroupReferenceKind,
                    path,
                    "subgroup "@ + debug_text(id) + " is composite rather than simple"@,
                ),
            ]
        } else {
            Seq::empty()
        },
    }
}

pub open spec fn subgroup_checks(m: ManifestView, i: int, subs: Seq<crate::types::SubgroupView>, k: int) -> Seq<
    IssueView,
>
    decreases k,
{
    if k <= 0 {
        Seq::empty()
    } else {
        subgroup_checks(m, i, subs, k - 1) + subgroup_issue(m, i, k - 1, subs[k - 1].id)
    }
}

/// A resource's parent must name an Image atlas resource of the same group.
pub open spec fn atlas_issue(i: int, s: SimpleGroupView, j: int) -> Seq<IssueView> {
    match s.resources[j].parent {
        None => Seq::empty(),
        Some(p) => {
            let path = resource_path(i, j) + ".parent"@;
            match last_resource_with_id(s.resources, s.resources.len() as int, p) {
                None => seq![
                    error(
                        ValidationCode::MissingAtlasReference,
                        path,
                        "atlas resource "@ + debug_text(p) + " does not exist in the same group"@,
                    ),
                ],
                Some(x) => if s.resources[x].resource_type != ResourceType::Image
                    || !s.resources[x].atlas {
                    seq![
                        error(
                            ValidationCode::InvalidAtlasReference,
                            path,
                            "parent resource "@ + debug_text(p)
                                + " is not an Image atlas resource"@,
                        ),
                    ]
                } else {
                    Seq::empty()
                },
            }
        },
    }
}

pub open spec fn atlas_checks(i: int, s: SimpleGroupView, j: int) -> Seq<IssueView>
    decreases j,
{
    if j <= 0 {
        Seq::empty()
    } else {
        atlas_checks(i, s, j - 1) + atlas_issue(i, s, j - 1)
    }
}

pub open spec fn reference_issues(m: ManifestView, i: int) -> Seq<IssueView> {
    parent_issue(m, i) + match m.groups[i] {
        GroupView::Composite(c) => subgroup_checks(m, i, c.subgroups, c.subgroups.len() as int),
        GroupView::Simple(s) => atlas_checks(i, s, s.resources.len() as int),
    }
}

/// The second pass: the references of every group, in order.
pub open spec fn reference_pass(m: ManifestView, i: int) -> Seq<IssueView>
    decreases i,
{
    if i <= 0 {
        Seq::empty()
    } else {
        reference_pass(m, i - 1) + reference_issues(m, i - 1)
    }
}

/// The number of different slots that the resources use.
pub open spec fn slot_table_size(m: ManifestView) -> nat {
    entries_before(m.groups, m.groups.len() as int).map_values(|e: EntryView| e.slot).to_set().len()
}

pub open spec fn slot_table_issue(m: ManifestView, canonical: bool) -> Seq<IssueView> {
    error_if(
        canonical && slot_table_size(m) != m.slot_count,
        ValidationCode::IncompleteSlotTable,
        "slot_count"@,
        "canonical slot table contains "@ + decimal(slot_table_size(m))
            + " unique resources but slot_count is "@ + decimal(m.slot_count as nat),
    )
}

/// Every issue that validating `m` reports, in order.
pub open spec fn validation_issues(m: ManifestView, canonical: bool) -> Seq<IssueView> {
    registration_pass(m, m.groups.len() as int, canonical) + reference_pass(
        m,
        m.groups.len() as int,
    ) + slot_table_issue(m, canonical)
}

// ----- the report -----

/// The errors among `issues`, in order.
pub open spec fn errors_of(issues: Seq<IssueView>) -> Seq<IssueView> {
    issues.filter(|i: IssueView| i.severity == ValidationSeverity::Error)
}

/// The warnings among `issues`, in order.
pub open spec fn warnings_of(issues: Seq<IssueView>) -> Seq<IssueView> {
    issues.filter(|i: IssueView| i.severity == ValidationSeverity::Warning)
}

/// No issue is an error.
pub open spec fn no_errors(issues: Seq<IssueView>) -> bool {
    forall|i: int| 0 <= i < issues.len() ==> issues[i].severity != ValidationSeverity::Error
}

impl Default for ValidationReport {
    fn default() -> (r: Self)
        ensures
            r@ == Seq::<IssueView>::empty(),
    {
        ValidationReport { issues: Vec::new() }
    }
}

impl ValidationReport {
    /// True when no issue is an error; warnings are allowed.
    pub fn is_valid(&self) -> (r: bool)
        ensures
            r == no_errors(self@),
    {
        let mut k: usize = 0;
        while k < self.issues.len()
            invariant
                k <= self.issues.len(),
                forall|i: int| 0 <= i < k ==> self@[i].severity != ValidationSeverity::Error,
            decreases self.issues.len() - k,
        {
            if self.issues[k].severity == ValidationSeverity::Error {
                assert(self@[k as int].severity == ValidationSeverity::Error);
                return false;
            }
            k = k + 1;
        }
        true
    }

    /// The issues that are errors, in order.
    pub fn errors(&self) -> (r: Vec<&ValidationIssue>)
        ensures
            r@.map_values(|x: &ValidationIssue| x@) == errors_of(self@),
    {
        let mut out: Vec<&ValidationIssue> = Vec::new();
        let mut k: usize = 0;
        while k < self.issues.len()
            invariant
                k <= self.issues.len(),
                out@.map_values(|x: &ValidationIssue| x@) == errors_of(self@.take(k as int)),
            decreases self.issues.len() - k,
        {
            let issue = &self.issues[k];
            proof {
                reveal(Seq::filter);
                assert(self@.take(k + 1).drop_last() =~= self@.take(k as int));
            }
            if issue.severity == ValidationSeverity::Error {
                out.push(issue);
            }
            assert(out@.map_values(|x: &ValidationIssue| x@) =~= errors_of(self@.take(k + 1)));
            k = k + 1;
        }
        assert(self@.take(k as int) =~= self@);
        out
    }

    /// The issues that are warnings, in order.
    pub fn warnings(&self) -> (r: Vec<&ValidationIssue>)
        ensures
            r@.map_values(|x: &ValidationIssue| x@) == warnings_of(self@),
    {
        let mut out: Vec<&ValidationIssue> = Vec::new();
        let mut k: usize = 0;
        while k < self.issues.len()
            invariant
                k <= self.issues.len(),
                out@.map_values(|x: &ValidationIssue| x@) == warnings_of(self@.take(k as int)),
            decreases self.issues.len() - k,
        {
            let issue = &self.issues[k];
            proof {
                reveal(Seq::filter);
                assert(self@.take(k + 1).drop_last() =~= self@.take(k as int));
            }
            if issue.severity == ValidationSeverity::Warning {
                out.push(issue);
            }
            assert(out@.map_values(|x: &ValidationIssue| x@) =~= warnings_of(self@.take(k + 1)));
            k = k + 1;
        }
        assert(self@.take(k as int) =~= self@);
        out
    }

    fn error(&mut self, code: ValidationCode, path: String, message: String)
        ensures
            final(self)@ == old(self)@.push(error(code, path@, message@)),
    {
        self.issues.push(
            ValidationIssue { severity: ValidationSeverity::Error, code, path, message },
        );
        assert(self@ =~= old(self)@.push(error(code, path@, message@)));
    }

    fn warning(&mut self, code: ValidationCode, path: String, message: String)
        ensures
            final(self)@ == old(self)@.push(
                IssueView {
                    severity: ValidationSeverity::Warning,
                    code,
                    path: path@,
                    message: message@,
                },
            ),
    {
        self.issues.push(
            ValidationIssue { severity: ValidationSeverity::Warning, code, path, message },
        );
        assert(self@ =~= old(self)@.push(
            IssueView { severity: ValidationSeverity::Warning, code, path: path@, message: message@ },
        ));
    }
}

// ----- the checks of one resource -----

/// `path.field`
fn field_path(path: &String, field: &str) -> (r: String)
    ensures
        r@ == path@ + "."@ + field@,
{
    let mut r = path.clone();
    r.append(".");
    r.append(field);
    r
}

fn check_geometry(report: &mut ValidationReport, path: &String, field: &str, value: Option<u32>)
    ensures
        final(report)@ == old(report)@ + geometry_issue(path@, field@, value),
{
    if let Some(v) = value {
        if v > 0xffff {
            let mut message = String::from_str(field);
            message.append(" exceeds 16-bit storage and would be truncated by the PvZ2 runtime");
            report.error(ValidationCode::GeometryOutOfRange, field_path(path, field), message);
        }
    }
    assert(report@ =~= old(report)@ + geometry_issue(path@, field@, value));
}

fn check_grid(report: &mut ValidationReport, path: &String, field: &str, value: Option<u32>)
    ensures
        final(report)@ == old(report)@ + grid_issue(path@, field@, value),
{
    if matches!(value, Some(0)) {
        let mut message = String::from_str(field);
        message.append(" must be at least 1");
        report.error(ValidationCode::InvalidGridSize, field_path(path, field), message);
    }
    assert(report@ =~= old(report)@ + grid_issue(path@, field@, value));
}

fn check_kind(report: &mut ValidationReport, resource: &Resource, path: &String, canonical: bool)
    ensures
        final(report)@ == old(report)@ + kind_issues(resource@, path@, canonical),
{
    let r = resource;
    if r.resource_type.is_image() {
        if r.atlas {
            if r.parent.is_some() || r.width.is_none() || r.height.is_none() || matches!(
                r.width,
                Some(0)
            ) || matches!(r.height, Some(0)) {
                report.error(
                    ValidationCode::InvalidAtlasImage,
                    path.clone(),
                    String::from_str("atlas image must have non-zero width/height and no parent"),
                );
            }
        } else if r.parent.is_some() {
            if r.atlas || r.x.is_none() || r.y.is_none() || r.aw.is_none() || r.ah.is_none()
                || matches!(r.aw, Some(0)) || matches!(r.ah, Some(0)) {
                report.error(
                    ValidationCode::InvalidSprite,
                    path.clone(),
                    String::from_str("sprite image must have x/y/aw/ah, a parent, and atlas=false"),
                );
            }
            if canonical && (r.width.is_some() || r.height.is_some()) {
                report.error(
                    ValidationCode::UnexpectedResourceMetadata,
                    path.clone(),
                    String::from_str("canonical sprite image does not store width/height"),
                );
            }
        }
    } else {
        let has_metadata = r.width.is_some() || r.height.is_some() || r.x.is_some()
            || r.y.is_some() || r.ax.is_some() || r.ay.is_some() || r.aw.is_some()
            || r.ah.is_some() || r.cols.is_some() || r.rows.is_some() || r.atlas
            || r.parent.is_some();
        if has_metadata {
            let message = String::from_str("non-Image resource contains image-only metadata");
            if canonical {
                report.error(ValidationCode::UnexpectedResourceMetadata, path.clone(), message);
            } else {
                report.warning(ValidationCode::UnexpectedResourceMetadata, path.clone(), message);
            }
        }
    }
    assert(report@ =~= old(report)@ + kind_issues(resource@, path@, canonical));
}

/// Check one resource record on its own: atlas geometry that the runtime
/// truncates, empty grids, and the fields that its kind allows.
#[verifier::rlimit(30)]
fn validate_resource(
    report: &mut ValidationReport,
    resource: &Resource,
    path: &String,
    canonical: bool,
)
    ensures
        final(report)@ == old(report)@ + resource_issues(resource@, path@, canonical),
{
    let ghost o = report@;
    let ghost r = resource@;
    let ghost p = path@;
    let ghost g1 = geometry_issue(p, "ax"@, r.ax);
    let ghost g2 = geometry_issue(p, "ay"@, r.ay);
    let ghost g3 = geometry_issue(p, "aw"@, r.aw);
    let ghost g4 = geometry_issue(p, "ah"@, r.ah);
    let ghost g5 = grid_issue(p, "cols"@, r.cols);
    let ghost g6 = grid_issue(p, "rows"@, r.rows);
    let ghost g7 = kind_issues(r, p, canonical);
    check_geometry(report, path, "ax", resource.ax);
    check_geometry(report, path, "ay", resource.ay);
    assert(report@ =~= o + (g1 + g2));
    check_geometry(report, path, "aw", resource.aw);
    assert(report@ =~= o + (g1 + g2 + g3));
    check_geometry(report, path, "ah", resource.ah);
    assert(report@ =~= o + (g1 + g2 + g3 + g4));
    check_grid(report, path, "cols", resource.cols);
    assert(report@ =~= o + (g1 + g2 + g3 + g4 + g5));
    check_grid(report, path, "rows", resource.rows);
    assert(report@ =~= o + (g1 + g2 + g3 + g4 + g5 + g6));
    check_kind(report, resource, path, canonical);
    assert(report@ =~= o + (g1 + g2 + g3 + g4 + g5 + g6 + g7));
}

// ----- registered resources and lookups -----

#[derive(Clone, Copy)]
struct ResourceLocation<'a> {
    group_index: usize,
    resource_index: usize,
    resolution: Option<u32>,
    parent: Option<&'a String>,
}

impl<'a> View for ResourceLocation<'a> {
    type V = LocationView;

    closed spec fn view(&self) -> LocationView {
        LocationView {
            group_index: self.group_index as int,
            resource_index: self.resource_index as int,
            resolution: self.resolution,
            parent: match self.parent {
                Some(p) => Some(p@),
                None => None,
            },
        }
    }
}

/// A resource as the first pass registers it.
struct RegisteredResource<'a> {
    location: ResourceLocation<'a>,
    id: &'a String,
    slot: u32,
}

impl<'a> View for RegisteredResource<'a> {
    type V = EntryView;

    closed spec fn view(&self) -> EntryView {
        EntryView { location: self.location@, id: self.id@, slot: self.slot }
    }
}

spec fn entries_of(seen: Seq<RegisteredResource>) -> Seq<EntryView> {
    seen.map_values(|x: RegisteredResource| x@)
}

/// Resolution-specific children of the same composite group are
/// alternatives: PvZ2 selects one resolution at runtime, so they may
/// intentionally reuse the same resource IDs and slots. Common children
/// (`resolution == None`) remain simultaneously loadable with the selected
/// resolution and are not exempt.
fn groups_are_mutually_exclusive(left: ResourceLocation<'_>, right: ResourceLocation<'_>) -> (r: bool)
    ensures
        r == mutually_exclusive(left@, right@),
{
    if left.group_index == right.group_index {
        return false;
    }
    let same_parent = match (left.parent, right.parent) {
        (Some(l), Some(r)) => l.eq(r),
        _ => false,
    };
    let different_resolution = match (left.resolution, right.resolution) {
        (Some(l), Some(r)) => l != r,
        _ => false,
    };
    same_parent && different_resolution
}

/// `first_clash` finds the earliest clash: when `k` clashes and nothing
/// before it does, it finds `prev[k]`; when nothing clashes (`k` is the
/// length), it finds nothing.
proof fn lemma_first_clash<K>(prev: Seq<EntryView>, e: EntryView, key: spec_fn(EntryView) -> K, k: int)
    requires
        0 <= k <= prev.len(),
        forall|j: int|
            0 <= j < k ==> !(key(#[trigger] prev[j]) == key(e) && !mutually_exclusive(
                prev[j].location,
                e.location,
            )),
        k < prev.len() ==> key(prev[k]) == key(e) && !mutually_exclusive(prev[k].location, e.location),
    ensures
        first_clash(prev, e, key) == if k < prev.len() {
            Some(prev[k])
        } else {
            None
        },
    decreases prev.len(),
{
    if prev.len() > 0 && k > 0 {
        let rest = prev.drop_first();
        assert(!(key(prev[0]) == key(e) && !mutually_exclusive(prev[0].location, e.location)));
        assert forall|j: int| 0 <= j < k - 1 implies !(key(#[trigger] rest[j]) == key(e)
            && !mutually_exclusive(rest[j].location, e.location)) by {
            assert(rest[j] == prev[j + 1]);
        }
        if k < prev.len() {
            assert(rest[k - 1] == prev[k]);
        }
        lemma_first_clash(rest, e, key, k - 1);
    }
}

/// The positions, in increasing order, of the registered resources whose key
/// is `x`.
spec fn positions_of<K>(entries: Seq<EntryView>, key: spec_fn(EntryView) -> K, x: K, l: Seq<usize>) -> bool {
    &&& l.len() > 0
    &&& forall|a: int, b: int| 0 <= a < b < l.len() ==> #[trigger] l[a] < #[trigger] l[b]
    &&& forall|t: int| 0 <= t < l.len() ==> #[trigger] l[t] < entries.len() && key(entries[l[t] as int]) == x
}

/// `index` maps every key met so far to the list of the positions of the
/// resources with that key.
spec fn index_wf<K>(
    entries: Seq<EntryView>,
    key: spec_fn(EntryView) -> K,
    index: Map<K, usize>,
    lists: Seq<Seq<usize>>,
) -> bool {
    &&& forall|x: K| #[trigger] index.contains_key(x) ==> index[x] < lists.len()
    &&& forall|x: K| #[trigger] index.contains_key(x) ==> positions_of(entries, key, x, lists[index[x] as int])
    &&& forall|k: int|
        0 <= k < entries.len() ==> index.contains_key(key(#[trigger] entries[k])) && lists[index[key(
            entries[k],
        )] as int].contains(k as usize)
}

spec fn lists_view(lists: Seq<Vec<usize>>) -> Seq<Seq<usize>> {
    lists.map_values(|l: Vec<usize>| l@)
}

proof fn lemma_index_absent<K>(
    entries: Seq<EntryView>,
    key: spec_fn(EntryView) -> K,
    index: Map<K, usize>,
    lists: Seq<Seq<usize>>,
    x: K,
)
    requires
        index_wf(entries, key, index, lists),
        !index.contains_key(x),
    ensures
        forall|k: int| 0 <= k < entries.len() ==> key(#[trigger] entries[k]) != x,
{
}

proof fn lemma_index_push_existing<K>(
    entries: Seq<EntryView>,
    key: spec_fn(EntryView) -> K,
    index: Map<K, usize>,
    lists: Seq<Seq<usize>>,
    c: EntryView,
)
    requires
        index_wf(entries, key, index, lists),
        index.contains_key(key(c)),
        entries.len() <= usize::MAX,
    ensures
        index_wf(
            entries.push(c),
            key,
            index,
            lists.update(
                index[key(c)] as int,
                lists[index[key(c)] as int].push(entries.len() as usize),
            ),
        ),
{
    let n = entries.len();
    let li = index[key(c)] as int;
    let e2 = entries.push(c);
    let l2 = lists.update(li, lists[li].push(n as usize));
    assert forall|x: K| #[trigger] index.contains_key(x) implies positions_of(
        e2,
        key,
        x,
        l2[index[x] as int],
    ) by {
        let l = lists[index[x] as int];
        assert(positions_of(entries, key, x, l));
        if index[x] as int == li {
            assert(key(entries[l[0] as int]) == x);
            assert(positions_of(entries, key, key(c), lists[li]));
            assert(key(entries[lists[li][0] as int]) == key(c));
            let l3 = l.push(n as usize);
            assert forall|t: int| 0 <= t < l3.len() implies #[trigger] l3[t] < e2.len() && key(
                e2[l3[t] as int],
            ) == x by {
                if t < l.len() {
                    assert(l3[t] == l[t]);
                    assert(e2[l[t] as int] == entries[l[t] as int]);
                }
            }
            assert forall|a: int, b: int| 0 <= a < b < l3.len() implies #[trigger] l3[a]
                < #[trigger] l3[b] by {
                assert(l3[a] == l[a]);
                if b < l.len() {
                    assert(l3[b] == l[b]);
                }
            }
            assert(l2[index[x] as int] == l3);
        } else {
            assert(l2[index[x] as int] == l);
            assert forall|t: int| 0 <= t < l.len() implies #[trigger] l[t] < e2.len() && key(
                e2[l[t] as int],
            ) == x by {
                assert(e2[l[t] as int] == entries[l[t] as int]);
            }
        }
    }
    assert forall|k: int| 0 <= k < e2.len() implies index.contains_key(key(#[trigger] e2[k]))
        && l2[index[key(e2[k])] as int].contains(k as usize) by {
        if k < n {
            assert(e2[k] == entries[k]);
            let x = key(entries[k]);
            let l = lists[index[x] as int];
            assert(l.contains(k as usize));
            if index[x] as int == li {
                let w = choose|w: int| 0 <= w < l.len() && l[w] == k as usize;
                assert(l.push(n as usize)[w] == k as usize);
            }
        } else {
            assert(e2[k] == c);
            assert(lists[li].push(n as usize)[lists[li].len() as int] == n as usize);
        }
    }
}

proof fn lemma_index_push_new<K>(
    entries: Seq<EntryView>,
    key: spec_fn(EntryView) -> K,
    index: Map<K, usize>,
    lists: Seq<Seq<usize>>,
    c: EntryView,
)
    requires
        index_wf(entries, key, index, lists),
        !index.contains_key(key(c)),
        entries.len() <= usize::MAX,
        lists.len() <= usize::MAX,
    ensures
        index_wf(
            entries.push(c),
            key,
            index.insert(key(c), lists.len() as usize),
            lists.push(seq![entries.len() as usize]),
        ),
{
    let n = entries.len();
    let e2 = entries.push(c);
    let i2 = index.insert(key(c), lists.len() as usize);
    let l2 = lists.push(seq![n as usize]);
    lemma_index_absent(entries, key, index, lists, key(c));
    assert forall|x: K| #[trigger] i2.contains_key(x) implies i2[x] < l2.len() && positions_of(
        e2,
        key,
        x,
        l2[i2[x] as int],
    ) by {
        if x == key(c) {
            assert(l2[i2[x] as int] == seq![n as usize]);
            assert(e2[n as int] == c);
        } else {
            let l = lists[index[x] as int];
            assert(positions_of(entries, key, x, l));
            assert(l2[i2[x] as int] == l);
            assert forall|t: int| 0 <= t < l.len() implies #[trigger] l[t] < e2.len() && key(
                e2[l[t] as int],
            ) == x by {
                assert(e2[l[t] as int] == entries[l[t] as int]);
            }
        }
    }
    assert forall|k: int| 0 <= k < e2.len() implies i2.contains_key(key(#[trigger] e2[k]))
        && l2[i2[key(e2[k])] as int].contains(k as usize) by {
        if k < n {
            assert(e2[k] == entries[k]);
            assert(key(entries[k]) != key(c));
            assert(l2[i2[key(e2[k])] as int] == lists[index[key(entries[k])] as int]);
        } else {
            assert(e2[k] == c);
            assert(seq![n as usize][0] == n as usize);
        }
    }
}

/// The keys of an index are the keys of the registered resources.
proof fn lemma_index_keys<K>(
    entries: Seq<EntryView>,
    key: spec_fn(EntryView) -> K,
    index: Map<K, usize>,
    lists: Seq<Seq<usize>>,
)
    requires
        index_wf(entries, key, index, lists),
    ensures
        index.dom() =~= entries.map_values(|e: EntryView| key(e)).to_set(),
{
    assert forall|x: K| index.dom().contains(x) implies entries.map_values(|e: EntryView| key(e)).contains(x) by {
        let l = lists[index[x] as int];
        assert(positions_of(entries, key, x, l));
        assert(l[0] < entries.len());
        assert(entries.map_values(|e: EntryView| key(e))[l[0] as int] == x);
    }
    assert forall|x: K| entries.map_values(|e: EntryView| key(e)).contains(x) implies index.dom().contains(x) by {
        let ks = entries.map_values(|e: EntryView| key(e));
        let k = choose|k: int| 0 <= k < ks.len() && #[trigger] ks[k] == x;
        assert(key(entries[k]) == x);
    }
}

/// The resources registered so far, with indexes from ID and from slot to
/// their positions.
struct Registry<'a> {
    seen: Vec<RegisteredResource<'a>>,
    ids: StringHashMap<usize>,
    id_lists: Vec<Vec<usize>>,
    slots: HashMap<u32, usize>,
    slot_lists: Vec<Vec<usize>>,
}

impl<'a> Registry<'a> {
    spec fn entries(&self) -> Seq<EntryView> {
        entries_of(self.seen@)
    }

    spec fn wf(&self) -> bool {
        &&& index_wf(self.entries(), by_id(), self.ids@, lists_view(self.id_lists@))
        &&& index_wf(self.entries(), by_slot(), self.slots@, lists_view(self.slot_lists@))
    }

    fn new() -> (r: Self)
        ensures
            r.wf(),
            r.entries() == Seq::<EntryView>::empty(),
    {
        let r = Registry {
            seen: Vec::new(),
            ids: StringHashMap::new(),
            id_lists: Vec::new(),
            slots: HashMap::new(),
            slot_lists: Vec::new(),
        };
        proof {
            broadcast use vstd::std_specs::hash::group_hash_axioms;

            assert(r.entries() =~= Seq::<EntryView>::empty());
        }
        r
    }
}

/// The first of the positions `list` whose resource can be loaded together
/// with `candidate`; the list holds, in order, every registered resource with
/// the candidate's key.
fn first_clash_in<K>(
    seen: &Vec<RegisteredResource<'_>>,
    list: &Vec<usize>,
    candidate: &RegisteredResource<'_>,
    Ghost(key): Ghost<spec_fn(EntryView) -> K>,
) -> (r: Option<usize>)
    requires
        positions_of(entries_of(seen@), key, key(candidate@), list@),
        forall|k: int|
            0 <= k < seen@.len() && key(#[trigger] entries_of(seen@)[k]) == key(candidate@)
                ==> list@.contains(k as usize),
    ensures
        match r {
            Some(k) => k < seen.len() && first_clash(entries_of(seen@), candidate@, key) == Some(
                entries_of(seen@)[k as int],
            ),
            None => first_clash(entries_of(seen@), candidate@, key) is None,
        },
{
    let ghost all = entries_of(seen@);
    let count = seen.len();
    assert(all.len() == count);
    let mut t: usize = 0;
    while t < list.len()
        invariant
            all == entries_of(seen@),
            positions_of(all, key, key(candidate@), list@),
            forall|k: int|
                0 <= k < all.len() && key(#[trigger] all[k]) == key(candidate@) ==> list@.contains(
                    k as usize,
                ),
            t <= list.len(),
            forall|u: int| 0 <= u < t ==> mutually_exclusive(all[#[trigger] list@[u] as int].location, candidate@.location),
        decreases list.len() - t,
    {
        let p = list[t];
        assert(p < all.len());
        assert(all[p as int] == seen@[p as int]@);
        if !groups_are_mutually_exclusive(seen[p].location, candidate.location) {
            proof {
                assert forall|j: int| 0 <= j < p implies !(key(#[trigger] all[j]) == key(candidate@)
                    && !mutually_exclusive(all[j].location, candidate@.location)) by {
                    if key(all[j]) == key(candidate@) {
                        assert(list@.contains(j as usize));
                        let u = choose|u: int| 0 <= u < list@.len() && list@[u] == j as usize;
                        if u >= t {
                            if u > t {
                                assert(list@[t as int] < list@[u]);
                            }
                        }
                        assert(u < t);
                    }
                }
                lemma_first_clash(all, candidate@, key, p as int);
            }
            return Some(p);
        }
        t = t + 1;
    }
    proof {
        assert forall|j: int| 0 <= j < all.len() implies !(key(#[trigger] all[j]) == key(candidate@)
            && !mutually_exclusive(all[j].location, candidate@.location)) by {
            if key(all[j]) == key(candidate@) {
                assert(list@.contains(j as usize));
                let u = choose|u: int| 0 <= u < list@.len() && list@[u] == j as usize;
                assert(u < t);
                assert(mutually_exclusive(all[list@[u] as int].location, candidate@.location));
                assert(list@[u] as int == j);
            }
        }
        lemma_first_clash(all, candidate@, key, all.len() as int);
    }
    None
}

impl<'a> Registry<'a> {
    /// The earliest registered resource with the candidate's ID that can be
    /// loaded together with it.
    fn find_id_clash(&self, candidate: &RegisteredResource<'a>) -> (r: Option<usize>)
        requires
            self.wf(),
        ensures
            match r {
                Some(k) => k < self.seen.len() && first_clash(self.entries(), candidate@, by_id())
                    == Some(self.entries()[k as int]),
                None => first_clash(self.entries(), candidate@, by_id()) is None,
            },
    {
        let ghost all = self.entries();
        let ghost ids = self.ids@;
        let ghost lists = lists_view(self.id_lists@);
        match self.ids.get(candidate.id.as_str()) {
            None => {
                proof {
                    lemma_index_absent(all, by_id(), ids, lists, candidate@.id);
                    lemma_first_clash(all, candidate@, by_id(), all.len() as int);
                }
                None
            },
            Some(li) => {
                let li = *li;
                assert(lists[li as int] == self.id_lists@[li as int]@);
                first_clash_in::<Seq<char>>(&self.seen, &self.id_lists[li], candidate, Ghost(by_id()))
            },
        }
    }

    /// The earliest registered resource in the candidate's slot that can be
    /// loaded together with it.
    fn find_slot_clash(&self, candidate: &RegisteredResource<'a>) -> (r: Option<usize>)
        requires
            self.wf(),
        ensures
            match r {
                Some(k) => k < self.seen.len() && first_clash(self.entries(), candidate@, by_slot())
                    == Some(self.entries()[k as int]),
                None => first_clash(self.entries(), candidate@, by_slot()) is None,
            },
    {
        broadcast use vstd::std_specs::hash::group_hash_axioms;

        let ghost all = self.entries();
        let ghost slots = self.slots@;
        let ghost lists = lists_view(self.slot_lists@);
        match self.slots.get(&candidate.slot) {
            None => {
                proof {
                    lemma_index_absent(all, by_slot(), slots, lists, candidate@.slot);
                    lemma_first_clash(all, candidate@, by_slot(), all.len() as int);
                }
                None
            },
            Some(li) => {
                let li = *li;
                assert(lists[li as int] == self.slot_lists@[li as int]@);
                first_clash_in::<u32>(&self.seen, &self.slot_lists[li], candidate, Ghost(by_slot()))
            },
        }
    }

    /// Register one more resource.
    fn add(&mut self, candidate: RegisteredResource<'a>)
        requires
            old(self).wf(),
        ensures
            final(self).wf(),
            final(self).entries() == old(self).entries().push(candidate@),
    {
        broadcast use vstd::std_specs::hash::group_hash_axioms;

        let ghost all = self.entries();
        let ghost c = candidate@;
        let position = self.seen.len();
        match self.ids.get(candidate.id.as_str()) {
            Some(li) => {
                let li = *li;
                proof {
                    lemma_index_push_existing(all, by_id(), self.ids@, lists_view(self.id_lists@), c);
                }
                let ghost before = self.id_lists@;
                self.id_lists[li].push(position);
                assert(lists_view(self.id_lists@) =~= lists_view(before).update(
                    li as int,
                    lists_view(before)[li as int].push(position),
                ));
            },
            None => {
                let li = self.id_lists.len();
                proof {
                    lemma_index_push_new(all, by_id(), self.ids@, lists_view(self.id_lists@), c);
                }
                let ghost before = self.id_lists@;
                let mut list = Vec::new();
                list.push(position);
                self.id_lists.push(list);
                self.ids.insert(candidate.id.clone(), li);
                assert(lists_view(self.id_lists@) =~= lists_view(before).push(seq![position]));
            },
        }
        match self.slots.get(&candidate.slot) {
            Some(li) => {
                let li = *li;
                proof {
                    lemma_index_push_existing(all, by_slot(), self.slots@, lists_view(self.slot_lists@), c);
                }
                let ghost before = self.slot_lists@;
                self.slot_lists[li].push(position);
                assert(lists_view(self.slot_lists@) =~= lists_view(before).update(
                    li as int,
                    lists_view(before)[li as int].push(position),
                ));
            },
            None => {
                let li = self.slot_lists.len();
                proof {
                    lemma_index_push_new(all, by_slot(), self.slots@, lists_view(self.slot_lists@), c);
                }
                let ghost before = self.slot_lists@;
                let mut list = Vec::new();
                list.push(position);
                self.slot_lists.push(list);
                self.slots.insert(candidate.slot, li);
                assert(lists_view(self.slot_lists@) =~= lists_view(before).push(seq![position]));
            },
        }
        self.seen.push(candidate);
        assert(self.entries() =~= all.push(c));
    }

    /// The number of different slots registered.
    fn slot_table_len(&self) -> (r: usize)
        requires
            self.wf(),
        ensures
            r == self.entries().map_values(|e: EntryView| e.slot).to_set().len(),
    {
        broadcast use vstd::std_specs::hash::group_hash_axioms;

        proof {
            lemma_index_keys(self.entries(), by_slot(), self.slots@, lists_view(self.slot_lists@));
            assert(self.entries().map_values(|e: EntryView| by_slot()(e)) =~= self.entries().map_values(
                |e: EntryView| e.slot,
            ));
        }
        self.slots.len()
    }
}

fn group_id(group: &ResourceGroup) -> (r: &String)
    ensures
        r@ == group@.id(),
{
    match group {
        ResourceGroup::Composite(g) => &g.id,
        ResourceGroup::Simple(g) => &g.id,
    }
}

fn group_parent(group: &ResourceGroup) -> (r: Option<&String>)
    ensures
        match r {
            Some(p) => group@.parent() == Some(p@),
            None => group@.parent() is None,
        },
{
    let parent = match group {
        ResourceGroup::Composite(g) => &g.parent,
        ResourceGroup::Simple(g) => &g.parent,
    };
    match parent {
        Some(p) => Some(p),
        None => None,
    }
}

/// The table of group IDs after registering the first `i` groups: each ID
/// maps to the index of its group and whether that group is composite; a
/// later group with the same ID replaces an earlier one.
spec fn group_table(groups: Seq<GroupView>, i: int) -> Map<Seq<char>, (usize, bool)>
    decreases i,
{
    if i <= 0 {
        Map::empty()
    } else {
        group_table(groups, i - 1).insert(
            groups[i - 1].id(),
            ((i - 1) as usize, groups[i - 1] is Composite),
        )
    }
}

/// A lookup in the table finds the last group with the ID.
proof fn lemma_group_table(groups: Seq<GroupView>, i: int, id: Seq<char>)
    requires
        0 <= i <= groups.len() <= usize::MAX,
    ensures
        match last_group_with_id(groups, i, id) {
            Some(k) => group_table(groups, i).contains_key(id) && group_table(groups, i)[id] == (
                k as usize,
                groups[k] is Composite,
            ) && 0 <= k < i,
            None => !group_table(groups, i).contains_key(id),
        },
    decreases i,
{
    if i > 0 {
        lemma_group_table(groups, i - 1, id);
    }
}

/// The table of resource IDs of a group: each ID maps to the index of the
/// last of the first `j` resources with that ID.
spec fn resource_table(rs: Seq<ResourceView>, j: int) -> Map<Seq<char>, usize>
    decreases j,
{
    if j <= 0 {
        Map::empty()
    } else {
        resource_table(rs, j - 1).insert(rs[j - 1].id, (j - 1) as usize)
    }
}

proof fn lemma_resource_table(rs: Seq<ResourceView>, j: int, id: Seq<char>)
    requires
        0 <= j <= rs.len() <= usize::MAX,
    ensures
        match last_resource_with_id(rs, j, id) {
            Some(k) => resource_table(rs, j).contains_key(id) && resource_table(rs, j)[id]
                == k as usize && 0 <= k < j,
            None => !resource_table(rs, j).contains_key(id),
        },
    decreases j,
{
    if j > 0 {
        lemma_resource_table(rs, j - 1, id);
    }
}

/// Build the table of resource IDs of a group.
fn build_resource_table(resources: &Vec<Resource>) -> (r: StringHashMap<usize>)
    ensures
        r@ == resource_table(resources@.map_values(|x: Resource| x@), resources.len() as int),
{
    let ghost rv = resources@.map_values(|x: Resource| x@);
    let mut table = StringHashMap::new();
    let mut j: usize = 0;
    while j < resources.len()
        invariant
            rv == resources@.map_values(|x: Resource| x@),
            j <= resources.len(),
            table@ == resource_table(rv, j as int),
        decreases resources.len() - j,
    {
        assert(rv[j as int] == resources@[j as int]@);
        table.insert(resources[j].id.clone(), j);
        j = j + 1;
    }
    table
}

// ----- the first pass -----

/// `groups[i]`
fn group_path_string(i: usize) -> (r: String)
    ensures
        r@ == group_path(i as int),
{
    numbered("groups[", i, "]")
}

/// `groups[i].resources[j]`
fn resource_path_string(i: usize, j: usize) -> (r: String)
    ensures
        r@ == resource_path(i as int, j as int),
{
    let mut r = group_path_string(i);
    r.append(".resources[");
    push_decimal(&mut r, j);
    r.append("]");
    r
}

/// `base` followed by `suffix`.
fn extended(base: &String, suffix: &str) -> (r: String)
    ensures
        r@ == base@ + suffix@,
{
    let mut r = base.clone();
    r.append(suffix);
    r
}

/// `prefix`, the string quoted as `Debug` writes it, then `suffix`.
fn quoted(prefix: &str, value: &String, suffix: &str) -> (r: String)
    ensures
        r@ == prefix@ + debug_text(value@) + suffix@,
{
    let mut r = String::from_str(prefix);
    let q = debug_string(value.as_str());
    r.append(q.as_str());
    r.append(suffix);
    r
}

/// `text` followed by `groups[g].resources[r]`.
fn with_resource_location(text: String, location: ResourceLocation<'_>) -> (r: String)
    ensures
        r@ == text@ + "groups["@ + decimal(location@.group_index as nat) + "].resources["@
            + decimal(location@.resource_index as nat) + "]"@,
{
    let mut r = text;
    r.append("groups[");
    push_decimal(&mut r, location.group_index);
    r.append("].resources[");
    push_decimal(&mut r, location.resource_index);
    r.append("]");
    r
}

/// Register resource `j` of simple group `i`, reporting what clashes with
/// the resources registered before it.
#[verifier::rlimit(80)]
fn register_resource<'a>(
    report: &mut ValidationReport,
    registry: &mut Registry<'a>,
    slot_count: u32,
    group: &'a SimpleGroup,
    i: usize,
    j: usize,
    canonical: bool,
    Ghost(m): Ghost<ManifestView>,
)
    requires
        old(registry).wf(),
        0 <= i < m.groups.len(),
        m.groups[i as int] == GroupView::Simple(group@),
        m.slot_count == slot_count,
        j < group.resources.len(),
        old(registry).entries() == entries_before(m.groups, i as int) + group_entries(
            m.groups[i as int],
            i as int,
        ).take(j as int),
    ensures
        final(registry).wf(),
        final(report)@ == old(report)@ + registration_issues(m, i as int, group@, j as int, canonical),
        final(registry).entries() == old(registry).entries().push(
            group_entries(m.groups[i as int], i as int)[j as int],
        ),
{
    let ghost entries = group_entries(m.groups[i as int], i as int);
    let ghost prev = registry.entries();
    let resource = &group.resources[j];
    let location = ResourceLocation {
        group_index: i,
        resource_index: j,
        resolution: group.resolution,
        parent: match &group.parent {
            Some(p) => Some(p),
            None => None,
        },
    };
    let candidate = RegisteredResource { location, id: &resource.id, slot: resource.slot };
    assert(candidate@ == entries[j as int]);
    let path = resource_path_string(i, j);
    let ghost start = report@;
    let ghost r = group@.resources[j as int];

    if let Some(k) = registry.find_id_clash(&candidate) {
        let previous = registry.seen[k].location;
        assert(prev[k as int] == registry.seen@[k as int]@);
        let message = with_resource_location(
            quoted("resource ID ", &resource.id, " was already defined by "),
            previous,
        );
        report.error(ValidationCode::DuplicateResourceId, extended(&path, ".id"), message);
    }
    assert(report@ =~= start + id_clash_issue(path@, r.id, first_clash(prev, candidate@, by_id())));
    let ghost after_id = report@;
    if resource.slot >= slot_count {
        let mut message = String::from_str("slot ");
        push_decimal(&mut message, resource.slot as usize);
        message.append(" is outside slot_count ");
        push_decimal(&mut message, slot_count as usize);
        report.error(ValidationCode::SlotOutOfRange, extended(&path, ".slot"), message);
    }
    assert(report@ =~= after_id + slot_range_issue(path@, r.slot, slot_count));
    let ghost after_range = report@;
    if let Some(k) = registry.find_slot_clash(&candidate) {
        let previous = registry.seen[k].location;
        assert(prev[k as int] == registry.seen@[k as int]@);
        let mut message = String::from_str("slot ");
        push_decimal(&mut message, resource.slot as usize);
        message.append(" was already used by ");
        let message = with_resource_location(message, previous);
        report.error(ValidationCode::DuplicateSlot, extended(&path, ".slot"), message);
    }
    assert(report@ =~= after_range + slot_clash_issue(
        path@,
        r.slot,
        first_clash(prev, candidate@, by_slot()),
    ));
    validate_resource(report, resource, &path, canonical);
    proof {
        assert(prev == entries_before(m.groups, i as int) + entries.take(j as int));
        assert(report@ =~= old(report)@ + registration_issues(
            m,
            i as int,
            group@,
            j as int,
            canonical,
        ));
    }
    registry.add(candidate);
}

/// Register group `i` and its resources, reporting a reused group ID and
/// what its resources clash with.
fn register_group<'a>(
    report: &mut ValidationReport,
    registry: &mut Registry<'a>,
    table: &mut StringHashMap<(usize, bool)>,
    manifest: &'a ResourceManifest,
    i: usize,
    canonical: bool,
)
    requires
        old(registry).wf(),
        i < manifest.groups.len(),
        old(registry).entries() == entries_before(manifest@.groups, i as int),
        old(table)@ == group_table(manifest@.groups, i as int),
    ensures
        final(registry).wf(),
        final(table)@ == group_table(manifest@.groups, i + 1),
        final(report)@ == old(report)@ + group_registration_issues(manifest@, i as int, canonical),
        final(registry).entries() == entries_before(manifest@.groups, i + 1),
{
    let ghost m = manifest@;
    let group = &manifest.groups[i];
    assert(m.groups[i as int] == group@);
    let id = group_id(group);
    let count = manifest.groups.len();
    proof {
        lemma_group_table(m.groups, i as int, id@);
    }
    if let Some(entry) = table.get(id.as_str()) {
        let previous = entry.0;
        let mut message = quoted("group ID ", id, " was already defined by groups[");
        push_decimal(&mut message, previous);
        message.append("]");
        report.error(
            ValidationCode::DuplicateGroupId,
            extended(&group_path_string(i), ".id"),
            message,
        );
    }
    assert(report@ =~= old(report)@ + duplicate_group_issue(m, i as int));
    table.insert(id.clone(), (i, is_composite(group)));
    let ghost base = report@;
    match group {
        ResourceGroup::Simple(g) => {
            let ghost entries = group_entries(m.groups[i as int], i as int);
            let mut j: usize = 0;
            assert(entries.take(0) =~= Seq::<EntryView>::empty());
            assert(entries_before(m.groups, i as int) + Seq::<EntryView>::empty()
                =~= entries_before(m.groups, i as int));
            while j < g.resources.len()
                invariant
                    m == manifest@,
                    table@ == group_table(m.groups, i + 1),
                    i < m.groups.len(),
                    m.groups[i as int] == GroupView::Simple(g@),
                    entries == group_entries(m.groups[i as int], i as int),
                    j <= g.resources.len(),
                    registry.wf(),
                    report@ == base + registrations(m, i as int, g@, j as int, canonical),
                    registry.entries() == entries_before(m.groups, i as int) + entries.take(j as int),
                decreases g.resources.len() - j,
            {
                register_resource(
                    report,
                    registry,
                    manifest.slot_count,
                    g,
                    i,
                    j,
                    canonical,
                    Ghost(m),
                );
                proof {
                    assert(report@ =~= base + registrations(m, i as int, g@, j + 1, canonical));
                    assert(entries.take(j as int).push(entries[j as int]) =~= entries.take(j + 1));
                    assert(entries_before(m.groups, i as int) + entries.take(j + 1) =~= (
                    entries_before(m.groups, i as int) + entries.take(j as int)).push(entries[j as int]));
                }
                j = j + 1;
            }
            assert(entries.take(j as int) =~= entries);
        },
        ResourceGroup::Composite(_) => {
            assert(entries_before(m.groups, i + 1) =~= entries_before(m.groups, i as int));
        },
    }
    assert(report@ =~= old(report)@ + group_registration_issues(m, i as int, canonical));
}

// ----- the second pass -----

fn is_composite(group: &ResourceGroup) -> (r: bool)
    ensures
        r == (group@ is Composite),
{
    match group {
        ResourceGroup::Composite(_) => true,
        ResourceGroup::Simple(_) => false,
    }
}

fn check_parent(
    report: &mut ValidationReport,
    manifest: &ResourceManifest,
    table: &StringHashMap<(usize, bool)>,
    i: usize,
)
    requires
        i < manifest.groups.len(),
        table@ == group_table(manifest@.groups, manifest.groups.len() as int),
    ensures
        final(report)@ == old(report)@ + parent_issue(manifest@, i as int),
{
    let ghost m = manifest@;
    let group = &manifest.groups[i];
    assert(m.groups[i as int] == group@);
    if let Some(parent) = group_parent(group) {
        let path = extended(&group_path_string(i), ".parent");
        let count = manifest.groups.len();
        proof {
            lemma_group_table(m.groups, m.groups.len() as int, parent@);
        }
        match table.get(parent.as_str()) {
            None => {
                report.error(
                    ValidationCode::MissingGroupReference,
                    path,
                    quoted("parent group ", parent, " does not exist"),
                );
            },
            Some(entry) => {
                if !entry.1 {
                    report.error(
                        ValidationCode::WrongGroupReferenceKind,
                        path,
                        quoted("parent group ", parent, " is not composite"),
                    );
                }
            },
        }
    }
    assert(report@ =~= old(report)@ + parent_issue(m, i as int));
}

fn check_subgroup(
    report: &mut ValidationReport,
    manifest: &ResourceManifest,
    table: &StringHashMap<(usize, bool)>,
    i: usize,
    k: usize,
    id: &String,
)
    requires
        table@ == group_table(manifest@.groups, manifest.groups.len() as int),
    ensures
        final(report)@ == old(report)@ + subgroup_issue(manifest@, i as int, k as int, id@),
{
    let ghost m = manifest@;
    let mut path = group_path_string(i);
    path.append(".subgroups[");
    push_decimal(&mut path, k);
    path.append("].id");
    let count = manifest.groups.len();
    proof {
        lemma_group_table(m.groups, m.groups.len() as int, id@);
    }
    match table.get(id.as_str()) {
        None => {
            report.error(
                ValidationCode::MissingGroupReference,
                path,
                quoted("subgroup ", id, " does not exist"),
            );
        },
        Some(entry) => {
            if entry.1 {
                report.error(
                    ValidationCode::WrongGroupReferenceKind,
                    path,
                    quoted("subgroup ", id, " is composite rather than simple"),
                );
            }
        },
    }
    assert(report@ =~= old(report)@ + subgroup_issue(m, i as int, k as int, id@));
}

fn check_atlas(
    report: &mut ValidationReport,
    group: &SimpleGroup,
    local: &StringHashMap<usize>,
    i: usize,
    j: usize,
)
    requires
        j < group.resources.len(),
        local@ == resource_table(group@.resources, group.resources.len() as int),
    ensures
        final(report)@ == old(report)@ + atlas_issue(i as int, group@, j as int),
{
    let resource = &group.resources[j];
    assert(group@.resources[j as int] == resource@);
    if let Some(parent) = &resource.parent {
        let path = extended(&resource_path_string(i, j), ".parent");
        let count = group.resources.len();
        proof {
            lemma_resource_table(group@.resources, group@.resources.len() as int, parent@);
        }
        match local.get(parent.as_str()) {
            None => {
                report.error(
                    ValidationCode::MissingAtlasReference,
                    path,
                    quoted("atlas resource ", parent, " does not exist in the same group"),
                );
            },
            Some(x) => {
                let target = &group.resources[*x];
                assert(group@.resources[*x as int] == target@);
                if !target.resource_type.is_image() || !target.atlas {
                    report.error(
                        ValidationCode::InvalidAtlasReference,
                        path,
                        quoted("parent resource ", parent, " is not an Image atlas resource"),
                    );
                }
            },
        }
    }
    assert(report@ =~= old(report)@ + atlas_issue(i as int, group@, j as int));
}

/// Check the references of group `i`: its parent, and its subgroups or the
/// atlas parents of its resources.
fn check_references(
    report: &mut ValidationReport,
    manifest: &ResourceManifest,
    table: &StringHashMap<(usize, bool)>,
    i: usize,
)
    requires
        i < manifest.groups.len(),
        table@ == group_table(manifest@.groups, manifest.groups.len() as int),
    ensures
        final(report)@ == old(report)@ + reference_issues(manifest@, i as int),
{
    let ghost m = manifest@;
    check_parent(report, manifest, table, i);
    let ghost base = report@;
    let group = &manifest.groups[i];
    assert(m.groups[i as int] == group@);
    match group {
        ResourceGroup::Composite(g) => {
            let ghost subs = g@.subgroups;
            let mut k: usize = 0;
            while k < g.subgroups.len()
                invariant
                    m == manifest@,
                    table@ == group_table(m.groups, m.groups.len() as int),
                    subs == g@.subgroups,
                    k <= g.subgroups.len(),
                    report@ == base + subgroup_checks(m, i as int, subs, k as int),
                decreases g.subgroups.len() - k,
            {
                assert(subs[k as int] == g.subgroups[k as int]@);
                check_subgroup(report, manifest, table, i, k, &g.subgroups[k].id);
                assert(report@ =~= base + subgroup_checks(m, i as int, subs, k + 1));
                k = k + 1;
            }
        },
        ResourceGroup::Simple(g) => {
            let local = build_resource_table(&g.resources);
            let mut j: usize = 0;
            while j < g.resources.len()
                invariant
                    local@ == resource_table(g@.resources, g.resources.len() as int),
                    j <= g.resources.len(),
                    report@ == base + atlas_checks(i as int, g@, j as int),
                decreases g.resources.len() - j,
            {
                check_atlas(report, g, &local, i, j);
                assert(report@ =~= base + atlas_checks(i as int, g@, j + 1));
                j = j + 1;
            }
        },
    }
    assert(report@ =~= old(report)@ + reference_issues(m, i as int));
}

// ----- the whole check -----

impl ResourceManifest {
    /// Validate cross-record and PvZ2 runtime invariants without modifying the
    /// manifest.
    pub fn validate(&self, profile: ValidationProfile) -> (r: ValidationReport)
        ensures
            r@ == validation_issues(self@, profile == ValidationProfile::Canonical),
    {
        validate_manifest(self, profile)
    }
}

fn validate_manifest(manifest: &ResourceManifest, profile: ValidationProfile) -> (r:
    ValidationReport)
    ensures
        r@ == validation_issues(manifest@, profile == ValidationProfile::Canonical),
{
    let ghost m = manifest@;
    let canonical = profile == ValidationProfile::Canonical;
    let mut report = ValidationReport::default();
    let mut registry = Registry::new();
    let mut table: StringHashMap<(usize, bool)> = StringHashMap::new();
    let n = manifest.groups.len();
    let mut i: usize = 0;
    while i < n
        invariant
            m == manifest@,
            n == m.groups.len(),
            i <= n,
            registry.wf(),
            table@ == group_table(m.groups, i as int),
            report@ == registration_pass(m, i as int, canonical),
            registry.entries() == entries_before(m.groups, i as int),
        decreases n - i,
    {
        register_group(&mut report, &mut registry, &mut table, manifest, i, canonical);
        assert(report@ =~= registration_pass(m, i + 1, canonical));
        i = i + 1;
    }
    let ghost first = report@;
    let mut i: usize = 0;
    assert(first =~= first + reference_pass(m, 0));
    while i < n
        invariant
            m == manifest@,
            n == m.groups.len(),
            i <= n,
            report@ == first + reference_pass(m, i as int),
            table@ == group_table(m.groups, n as int),
        decreases n - i,
    {
        check_references(&mut report, manifest, &table, i);
        assert(report@ =~= first + reference_pass(m, i + 1));
        i = i + 1;
    }
    let ghost second = report@;
    let distinct = registry.slot_table_len();
    assert(distinct == slot_table_size(m));
    if canonical && distinct != manifest.slot_count as usize {
        let mut message = String::from_str("canonical slot table contains ");
        push_decimal(&mut message, distinct);
        message.append(" unique resources but slot_count is ");
        push_decimal(&mut message, manifest.slot_count as usize);
        report.error(
            ValidationCode::IncompleteSlotTable,
            String::from_str("slot_count"),
            message,
        );
    }
    assert(report@ =~= validation_issues(m, canonical));
    report
}

// ----- laws -----

/// Two resource locations exclude each other or not whichever is named
/// first.
pub proof fn mutual_exclusion_is_symmetric(left: LocationView, right: LocationView)
    ensures
        mutually_exclusive(left, right) == mutually_exclusive(right, left),
{
}

/// Resolution alternatives may reuse IDs and slots: a resource clashes with
/// none of the earlier resources when each of them is in a group that is a
/// resolution alternative of its own.
pub proof fn alternatives_never_clash<K>(
    prev: Seq<EntryView>,
    e: EntryView,
    key: spec_fn(EntryView) -> K,
)
    requires
        forall|k: int| 0 <= k < prev.len() ==> mutually_exclusive(#[trigger] prev[k].location, e.location),
    ensures
        first_clash(prev, e, key) is None,
{
    lemma_first_clash(prev, e, key, prev.len() as int);
}

/// Every issue is an error or a warning, so the errors and the warnings
/// together are all the issues; and a report is valid exactly when it has no
/// errors.
pub proof fn errors_and_warnings_partition(issues: Seq<IssueView>)
    ensures
        errors_of(issues).len() + warnings_of(issues).len() == issues.len(),
        no_errors(issues) <==> errors_of(issues).len() == 0,
    decreases issues.len(),
{
    reveal(Seq::filter);
    if issues.len() > 0 {
        let init = issues.drop_last();
        errors_and_warnings_partition(init);
        if no_errors(issues) {
            assert(no_errors(init)) by {
                assert forall|i: int| 0 <= i < init.len() implies init[i].severity
                    != ValidationSeverity::Error by {
                    assert(init[i] == issues[i]);
                }
            }
            assert(issues[issues.len() - 1].severity != ValidationSeverity::Error);
        }
        if errors_of(issues).len() == 0 {
            assert forall|i: int| 0 <= i < issues.len() implies issues[i].severity
                != ValidationSeverity::Error by {
                if i < init.len() {
                    assert(init[i] == issues[i]);
                }
            }
        }
    }
}

/// The same issue, reported as an error.
pub open spec fn as_error(issue: IssueView) -> IssueView {
    IssueView { severity: ValidationSeverity::Error, ..issue }
}

/// Every issue of `a` is also reported in `b`, a warning of `a` as an error.
pub open spec fn errors_within(a: Seq<IssueView>, b: Seq<IssueView>) -> bool {
    forall|k: int| 0 <= k < a.len() ==> b.contains(#[trigger] as_error(a[k]))
}

/// Every issue of `a` is an error.
pub open spec fn all_errors(a: Seq<IssueView>) -> bool {
    forall|k: int| 0 <= k < a.len() ==> (#[trigger] a[k]).severity == ValidationSeverity::Error
}

proof fn lemma_errors_within_add(a: Seq<IssueView>, b: Seq<IssueView>, c: Seq<IssueView>, d: Seq<IssueView>)
    requires
        errors_within(a, b),
        errors_within(c, d),
    ensures
        errors_within(a + c, b + d),
{
    assert forall|k: int| 0 <= k < (a + c).len() implies (b + d).contains(
        #[trigger] as_error((a + c)[k]),
    ) by {
        if k < a.len() {
            assert((a + c)[k] == a[k]);
            let x = choose|x: int| 0 <= x < b.len() && b[x] == as_error(a[k]);
            assert((b + d)[x] == as_error(a[k]));
        } else {
            assert((a + c)[k] == c[k - a.len()]);
            assert(d.contains(as_error(c[k - a.len()])));
            let x = choose|x: int| 0 <= x < d.len() && d[x] == as_error(c[k - a.len()]);
            assert((b + d)[b.len() + x] == d[x]);
        }
    }
}

proof fn lemma_errors_within_self(a: Seq<IssueView>)
    requires
        all_errors(a),
    ensures
        errors_within(a, a),
{
    assert forall|k: int| 0 <= k < a.len() implies a.contains(#[trigger] as_error(a[k])) by {
        assert(as_error(a[k]) == a[k]);
    }
}

proof fn lemma_all_errors_add(a: Seq<IssueView>, b: Seq<IssueView>)
    requires
        all_errors(a),
        all_errors(b),
    ensures
        all_errors(a + b),
{
    assert forall|k: int| 0 <= k < (a + b).len() implies (#[trigger] (a + b)[k]).severity
        == ValidationSeverity::Error by {
        if k < a.len() {
            assert((a + b)[k] == a[k]);
        } else {
            assert((a + b)[k] == b[k - a.len()]);
        }
    }
}

proof fn lemma_error_if_all_errors(cond: bool, code: ValidationCode, path: Seq<char>, message: Seq<char>)
    ensures
        all_errors(error_if(cond, code, path, message)),
{
}

proof fn lemma_subgroup_checks_all_errors(m: ManifestView, i: int, subs: Seq<crate::types::SubgroupView>, k: int)
    ensures
        all_errors(subgroup_checks(m, i, subs, k)),
    decreases k,
{
    if k > 0 {
        lemma_subgroup_checks_all_errors(m, i, subs, k - 1);
        lemma_all_errors_add(subgroup_checks(m, i, subs, k - 1), subgroup_issue(m, i, k - 1, subs[k - 1].id));
    }
}

proof fn lemma_atlas_checks_all_errors(i: int, s: SimpleGroupView, j: int)
    ensures
        all_errors(atlas_checks(i, s, j)),
    decreases j,
{
    if j > 0 {
        lemma_atlas_checks_all_errors(i, s, j - 1);
        lemma_all_errors_add(atlas_checks(i, s, j - 1), atlas_issue(i, s, j - 1));
    }
}

proof fn lemma_reference_pass_all_errors(m: ManifestView, i: int)
    ensures
        all_errors(reference_pass(m, i)),
    decreases i,
{
    if i > 0 {
        lemma_reference_pass_all_errors(m, i - 1);
        let rest = match m.groups[i - 1] {
            GroupView::Composite(c) => {
                lemma_subgroup_checks_all_errors(m, i - 1, c.subgroups, c.subgroups.len() as int);
                subgroup_checks(m, i - 1, c.subgroups, c.subgroups.len() as int)
            },
            GroupView::Simple(s) => {
                lemma_atlas_checks_all_errors(i - 1, s, s.resources.len() as int);
                atlas_checks(i - 1, s, s.resources.len() as int)
            },
        };
        lemma_all_errors_add(parent_issue(m, i - 1), rest);
        lemma_all_errors_add(reference_pass(m, i - 1), reference_issues(m, i - 1));
    }
}

proof fn lemma_resource_errors_within(r: ResourceView, path: Seq<char>)
    ensures
        errors_within(resource_issues(r, path, false), resource_issues(r, path, true)),
{
    let g1 = geometry_issue(path, "ax"@, r.ax);
    let g2 = geometry_issue(path, "ay"@, r.ay);
    let g3 = geometry_issue(path, "aw"@, r.aw);
    let g4 = geometry_issue(path, "ah"@, r.ah);
    let g5 = grid_issue(path, "cols"@, r.cols);
    let g6 = grid_issue(path, "rows"@, r.rows);
    lemma_all_errors_add(g1, g2);
    lemma_all_errors_add(g1 + g2, g3);
    lemma_all_errors_add(g1 + g2 + g3, g4);
    lemma_all_errors_add(g1 + g2 + g3 + g4, g5);
    lemma_all_errors_add(g1 + g2 + g3 + g4 + g5, g6);
    let g = g1 + g2 + g3 + g4 + g5 + g6;
    lemma_errors_within_self(g);
    let a = kind_issues(r, path, false);
    let b = kind_issues(r, path, true);
    if r.resource_type == ResourceType::Image && !r.atlas && r.parent is Some {
        let sprite = error_if(
            r.atlas || r.x is None || r.y is None || r.aw is None || r.ah is None || r.aw
                == Some(0u32) || r.ah == Some(0u32),
            ValidationCode::InvalidSprite,
            path,
            "sprite image must have x/y/aw/ah, a parent, and atlas=false"@,
        );
        lemma_errors_within_self(sprite);
        lemma_errors_within_add(
            sprite,
            sprite,
            Seq::empty(),
            error_if(
                r.width is Some || r.height is Some,
                ValidationCode::UnexpectedResourceMetadata,
                path,
                "canonical sprite image does not store width/height"@,
            ),
        );
        assert(sprite + Seq::<IssueView>::empty() =~= a);
    } else if r.resource_type == ResourceType::Image {
        lemma_errors_within_self(a);
    } else if has_image_metadata(r) {
        assert(as_error(a[0]) == b[0]);
        assert(b.contains(as_error(a[0])));
    }
    lemma_errors_within_add(g, g, a, b);
}

proof fn lemma_registrations_errors_within(m: ManifestView, i: int, s: SimpleGroupView, j: int)
    ensures
        errors_within(registrations(m, i, s, j, false), registrations(m, i, s, j, true)),
    decreases j,
{
    if j <= 0 {
        lemma_errors_within_self(Seq::empty());
    } else {
        lemma_registrations_errors_within(m, i, s, j - 1);
        let path = resource_path(i, j - 1);
        let r = s.resources[j - 1];
        let entries = group_entries(GroupView::Simple(s), i);
        let e = entries[j - 1];
        let prev = entries_before(m.groups, i) + entries.take(j - 1);
        let head = id_clash_issue(path, r.id, first_clash(prev, e, by_id())) + slot_range_issue(
            path,
            r.slot,
            m.slot_count,
        ) + slot_clash_issue(path, r.slot, first_clash(prev, e, by_slot()));
        lemma_all_errors_add(
            id_clash_issue(path, r.id, first_clash(prev, e, by_id())),
            slot_range_issue(path, r.slot, m.slot_count),
        );
        lemma_all_errors_add(
            id_clash_issue(path, r.id, first_clash(prev, e, by_id())) + slot_range_issue(
                path,
                r.slot,
                m.slot_count,
            ),
            slot_clash_issue(path, r.slot, first_clash(prev, e, by_slot())),
        );
        lemma_errors_within_self(head);
        lemma_resource_errors_within(r, path);
        lemma_errors_within_add(
            head,
            head,
            resource_issues(r, path, false),
            resource_issues(r, path, true),
        );
        lemma_errors_within_add(
            registrations(m, i, s, j - 1, false),
            registrations(m, i, s, j - 1, true),
            registration_issues(m, i, s, j - 1, false),
            registration_issues(m, i, s, j - 1, true),
        );
    }
}

proof fn lemma_registration_pass_errors_within(m: ManifestView, i: int)
    ensures
        errors_within(registration_pass(m, i, false), registration_pass(m, i, true)),
    decreases i,
{
    if i <= 0 {
        lemma_errors_within_self(Seq::empty());
    } else {
        lemma_registration_pass_errors_within(m, i - 1);
        let d = duplicate_group_issue(m, i - 1);
        lemma_errors_within_self(d);
        lemma_all_errors_add(d, Seq::empty());
        match m.groups[i - 1] {
            GroupView::Simple(s) => {
                lemma_registrations_errors_within(m, i - 1, s, s.resources.len() as int);
                lemma_errors_within_add(
                    d,
                    d,
                    registrations(m, i - 1, s, s.resources.len() as int, false),
                    registrations(m, i - 1, s, s.resources.len() as int, true),
                );
            },
            GroupView::Composite(_) => {
                lemma_errors_within_self(d + Seq::<IssueView>::empty());
            },
        }
        lemma_errors_within_add(
            registration_pass(m, i - 1, false),
            registration_pass(m, i - 1, true),
            group_registration_issues(m, i - 1, false),
            group_registration_issues(m, i - 1, true),
        );
    }
}

/// The canonical profile adds checks to the runtime profile: every error
/// that the runtime profile reports, the canonical profile reports too, and
/// every warning of the runtime profile comes back from the canonical
/// profile as an error. So a manifest that passes the canonical profile
/// passes the runtime profile.
pub proof fn canonical_reports_every_runtime_error(m: ManifestView)
    ensures
        forall|k: int|
            0 <= k < validation_issues(m, false).len() && validation_issues(m, false)[k].severity
                == ValidationSeverity::Error ==> validation_issues(m, true).contains(
                #[trigger] validation_issues(m, false)[k],
            ),
        forall|k: int|
            0 <= k < validation_issues(m, false).len() && validation_issues(m, false)[k].severity
                == ValidationSeverity::Warning ==> validation_issues(m, true).contains(
                IssueView {
                    severity: ValidationSeverity::Error,
                    ..#[trigger] validation_issues(m, false)[k]
                },
            ),
        no_errors(validation_issues(m, true)) ==> no_errors(validation_issues(m, false)),
{
    let n = m.groups.len() as int;
    lemma_registration_pass_errors_within(m, n);
    let refs = reference_pass(m, n);
    lemma_reference_pass_all_errors(m, n);
    lemma_errors_within_self(refs);
    lemma_errors_within_add(registration_pass(m, n, false), registration_pass(m, n, true), refs, refs);
    lemma_errors_within_add(
        registration_pass(m, n, false) + refs,
        registration_pass(m, n, true) + refs,
        slot_table_issue(m, false),
        slot_table_issue(m, true),
    );
    let a = validation_issues(m, false);
    let b = validation_issues(m, true);
    assert(errors_within(a, b));
    assert forall|k: int| 0 <= k < a.len() && a[k].severity == ValidationSeverity::Error implies b.contains(
        #[trigger] a[k],
    ) by {
        assert(as_error(a[k]) == a[k]);
        assert(b.contains(as_error(a[k])));
    }
    assert forall|k: int| 0 <= k < a.len() && a[k].severity == ValidationSeverity::Warning implies b.contains(
        IssueView { severity: ValidationSeverity::Error, ..#[trigger] a[k] },
    ) by {
        assert(b.contains(as_error(a[k])));
    }
    if no_errors(b) {
        assert forall|k: int| 0 <= k < a.len() implies a[k].severity != ValidationSeverity::Error by {
            assert(b.contains(as_error(a[k])));
            let x = choose|x: int| 0 <= x < b.len() && b[x] == as_error(a[k]);
            assert(b[x].severity != ValidationSeverity::Error);
        }
    }
}

// ----- what the report holds for given records -----

/// `issues` holds an error with `code` at `path`.
pub open spec fn reports_error(issues: Seq<IssueView>, code: ValidationCode, path: Seq<char>) -> bool {
    exists|k: int|
        0 <= k < issues.len() && (#[trigger] issues[k]).severity == ValidationSeverity::Error
            && issues[k].code == code && issues[k].path == path
}

proof fn lemma_contains_left(a: Seq<IssueView>, b: Seq<IssueView>, x: IssueView)
    requires
        a.contains(x),
    ensures
        (a + b).contains(x),
{
    let k = choose|k: int| 0 <= k < a.len() && a[k] == x;
    assert((a + b)[k] == x);
}

proof fn lemma_contains_right(a: Seq<IssueView>, b: Seq<IssueView>, x: IssueView)
    requires
        b.contains(x),
    ensures
        (a + b).contains(x),
{
    let k = choose|k: int| 0 <= k < b.len() && b[k] == x;
    assert((a + b)[a.len() + k] == x);
}

proof fn lemma_contains_reports(issues: Seq<IssueView>, x: IssueView)
    requires
        issues.contains(x),
        x.severity == ValidationSeverity::Error,
    ensures
        reports_error(issues, x.code, x.path),
{
    let k = choose|k: int| 0 <= k < issues.len() && issues[k] == x;
    assert(issues[k] == x);
}

proof fn lemma_in_registrations(
    m: ManifestView,
    i: int,
    s: SimpleGroupView,
    j: int,
    n: int,
    canonical: bool,
    x: IssueView,
)
    requires
        0 <= j < n,
        registration_issues(m, i, s, j, canonical).contains(x),
    ensures
        registrations(m, i, s, n, canonical).contains(x),
    decreases n,
{
    if n - 1 == j {
        lemma_contains_right(
            registrations(m, i, s, n - 1, canonical),
            registration_issues(m, i, s, j, canonical),
            x,
        );
    } else {
        lemma_in_registrations(m, i, s, j, n - 1, canonical, x);
        lemma_contains_left(
            registrations(m, i, s, n - 1, canonical),
            registration_issues(m, i, s, n - 1, canonical),
            x,
        );
    }
}

proof fn lemma_in_pass(m: ManifestView, i: int, n: int, canonical: bool, x: IssueView)
    requires
        0 <= i < n,
        group_registration_issues(m, i, canonical).contains(x),
    ensures
        registration_pass(m, n, canonical).contains(x),
    decreases n,
{
    if n - 1 == i {
        lemma_contains_right(registration_pass(m, n - 1, canonical), group_registration_issues(m, i, canonical), x);
    } else {
        lemma_in_pass(m, i, n - 1, canonical, x);
        lemma_contains_left(
            registration_pass(m, n - 1, canonical),
            group_registration_issues(m, n - 1, canonical),
            x,
        );
    }
}

/// An issue raised while registering resource `j` of simple group `i` is in
/// the report.
proof fn lemma_registration_reported(m: ManifestView, i: int, j: int, canonical: bool, x: IssueView)
    requires
        0 <= i < m.groups.len(),
        m.groups[i] is Simple,
        0 <= j < m.groups[i]->Simple_0.resources.len(),
        registration_issues(m, i, m.groups[i]->Simple_0, j, canonical).contains(x),
    ensures
        validation_issues(m, canonical).contains(x),
{
    let s = m.groups[i]->Simple_0;
    lemma_in_registrations(m, i, s, j, s.resources.len() as int, canonical, x);
    lemma_contains_right(duplicate_group_issue(m, i), registrations(m, i, s, s.resources.len() as int, canonical), x);
    lemma_in_pass(m, i, m.groups.len() as int, canonical, x);
    let n = m.groups.len() as int;
    lemma_contains_left(registration_pass(m, n, canonical), reference_pass(m, n), x);
    lemma_contains_left(registration_pass(m, n, canonical) + reference_pass(m, n), slot_table_issue(m, canonical), x);
}

/// A resource whose slot is not below the slot count is reported as out of
/// range, in both profiles; so a report without errors means that every
/// slot is below the slot count.
pub proof fn slots_beyond_the_count_are_reported(m: ManifestView, canonical: bool, i: int, j: int)
    requires
        0 <= i < m.groups.len(),
        m.groups[i] is Simple,
        0 <= j < m.groups[i]->Simple_0.resources.len(),
    ensures
        m.groups[i]->Simple_0.resources[j].slot >= m.slot_count ==> reports_error(
            validation_issues(m, canonical),
            ValidationCode::SlotOutOfRange,
            resource_path(i, j) + ".slot"@,
        ),
        no_errors(validation_issues(m, canonical)) ==> m.groups[i]->Simple_0.resources[j].slot < m.slot_count,
{
    let s = m.groups[i]->Simple_0;
    let r = s.resources[j];
    if r.slot >= m.slot_count {
        let path = resource_path(i, j);
        let entries = group_entries(GroupView::Simple(s), i);
        let e = entries[j];
        let prev = entries_before(m.groups, i) + entries.take(j);
        let a = id_clash_issue(path, r.id, first_clash(prev, e, by_id()));
        let b = slot_range_issue(path, r.slot, m.slot_count);
        let c = slot_clash_issue(path, r.slot, first_clash(prev, e, by_slot()));
        let x = b[0];
        assert(b.contains(x));
        lemma_contains_right(a, b, x);
        lemma_contains_left(a + b, c, x);
        lemma_contains_left(a + b + c, resource_issues(r, path, canonical), x);
        lemma_registration_reported(m, i, j, canonical, x);
        lemma_contains_reports(validation_issues(m, canonical), x);
        let issues = validation_issues(m, canonical);
        if no_errors(issues) {
            let k = choose|k: int| 0 <= k < issues.len() && issues[k] == x;
            assert(issues[k].severity == ValidationSeverity::Error);
        }
    }
}

/// An atlas image without a non-zero width and height, or with a parent, is
/// reported as an invalid atlas image, in both profiles.
pub proof fn incomplete_atlas_images_are_reported(m: ManifestView, canonical: bool, i: int, j: int)
    requires
        0 <= i < m.groups.len(),
        m.groups[i] is Simple,
        0 <= j < m.groups[i]->Simple_0.resources.len(),
    ensures
        ({
            let r = m.groups[i]->Simple_0.resources[j];
            r.resource_type == ResourceType::Image && r.atlas && (r.width is None || r.height is None
                || r.width == Some(0u32) || r.height == Some(0u32) || r.parent is Some)
        }) ==> reports_error(
            validation_issues(m, canonical),
            ValidationCode::InvalidAtlasImage,
            resource_path(i, j),
        ),
{
    let s = m.groups[i]->Simple_0;
    let r = s.resources[j];
    if r.resource_type == ResourceType::Image && r.atlas && (r.width is None || r.height is None
        || r.width == Some(0u32) || r.height == Some(0u32) || r.parent is Some) {
        let path = resource_path(i, j);
        let entries = group_entries(GroupView::Simple(s), i);
        let e = entries[j];
        let prev = entries_before(m.groups, i) + entries.take(j);
        let head = id_clash_issue(path, r.id, first_clash(prev, e, by_id())) + slot_range_issue(
            path,
            r.slot,
            m.slot_count,
        ) + slot_clash_issue(path, r.slot, first_clash(prev, e, by_slot()));
        let g = geometry_issue(path, "ax"@, r.ax) + geometry_issue(path, "ay"@, r.ay) + geometry_issue(
            path,
            "aw"@,
            r.aw,
        ) + geometry_issue(path, "ah"@, r.ah) + grid_issue(path, "cols"@, r.cols) + grid_issue(
            path,
            "rows"@,
            r.rows,
        );
        let k = kind_issues(r, path, canonical);
        let x = k[0];
        assert(k.contains(x));
        lemma_contains_right(g, k, x);
        assert(resource_issues(r, path, canonical) == g + k);
        lemma_contains_right(head, g + k, x);
        lemma_registration_reported(m, i, j, canonical, x);
        lemma_contains_reports(validation_issues(m, canonical), x);
    }
}

proof fn lemma_first_clash_found<K>(prev: Seq<EntryView>, e: EntryView, key: spec_fn(EntryView) -> K, t: int)
    requires
        0 <= t < prev.len(),
        key(prev[t]) == key(e),
        !(prev[t].location.parent is Some && prev[t].location.parent == e.location.parent
            && prev[t].location.resolution is Some && e.location.resolution is Some
            && prev[t].location.resolution != e.location.resolution),
    ensures
        first_clash(prev, e, key) is Some,
    decreases prev.len(),
{
    if t > 0 && !(key(prev[0]) == key(e) && !mutually_exclusive(prev[0].location, e.location)) {
        assert(prev.drop_first()[t - 1] == prev[t]);
        lemma_first_clash_found(prev.drop_first(), e, key, t - 1);
    }
}

proof fn lemma_entry_before(groups: Seq<GroupView>, n: int, i: int, j: int)
    requires
        0 <= i < n <= groups.len(),
        groups[i] is Simple,
        0 <= j < groups[i]->Simple_0.resources.len(),
    ensures
        exists|t: int|
            0 <= t < entries_before(groups, n).len() && #[trigger] entries_before(groups, n)[t]
                == group_entries(groups[i], i)[j],
    decreases n,
{
    let before = entries_before(groups, n - 1);
    let here = group_entries(groups[n - 1], n - 1);
    let all = entries_before(groups, n);
    assert(all == before + here);
    if i == n - 1 {
        assert(here.len() == groups[i]->Simple_0.resources.len());
        assert(all[before.len() + j] == here[j]);
    } else {
        lemma_entry_before(groups, n - 1, i, j);
        let t = choose|t: int| 0 <= t < before.len() && before[t] == group_entries(groups[i], i)[j];
        assert(all[t] == before[t]);
    }
}

/// Two resources with the same ID, or the same slot, are reported at the
/// later one unless their groups are resolution alternatives: children of
/// one composite group with two different resolutions. In particular,
/// resources of groups with different parents, or without a parent, or of
/// one group, always clash.
pub proof fn clashing_resources_are_reported(
    m: ManifestView,
    canonical: bool,
    i: int,
    j: int,
    k: int,
    l: int,
)
    requires
        0 <= i < m.groups.len(),
        0 <= k < m.groups.len(),
        m.groups[i] is Simple,
        m.groups[k] is Simple,
        0 <= j < m.groups[i]->Simple_0.resources.len(),
        0 <= l < m.groups[k]->Simple_0.resources.len(),
        i < k || (i == k && j < l),
        !(m.groups[i]->Simple_0.parent is Some && m.groups[i]->Simple_0.parent
            == m.groups[k]->Simple_0.parent && i != k && m.groups[i]->Simple_0.resolution is Some
            && m.groups[k]->Simple_0.resolution is Some && m.groups[i]->Simple_0.resolution
            != m.groups[k]->Simple_0.resolution),
    ensures
        m.groups[i]->Simple_0.resources[j].id == m.groups[k]->Simple_0.resources[l].id
            ==> reports_error(
            validation_issues(m, canonical),
            ValidationCode::DuplicateResourceId,
            resource_path(k, l) + ".id"@,
        ),
        m.groups[i]->Simple_0.resources[j].slot == m.groups[k]->Simple_0.resources[l].slot
            ==> reports_error(
            validation_issues(m, canonical),
            ValidationCode::DuplicateSlot,
            resource_path(k, l) + ".slot"@,
        ),
{
    let si = m.groups[i]->Simple_0;
    let s = m.groups[k]->Simple_0;
    let r = s.resources[l];
    let path = resource_path(k, l);
    let entries = group_entries(GroupView::Simple(s), k);
    let e = entries[l];
    let before = entries_before(m.groups, k);
    let prev = before + entries.take(l);
    let other = group_entries(m.groups[i], i)[j];
    let t = if i < k {
        lemma_entry_before(m.groups, k, i, j);
        let t = choose|t: int| 0 <= t < before.len() && before[t] == other;
        assert(prev[t] == before[t]);
        t
    } else {
        assert(prev[before.len() + j] == entries.take(l)[j]);
        before.len() + j
    };
    assert(prev[t] == other);
    assert(other.id == si.resources[j].id && other.slot == si.resources[j].slot);
    assert(e.id == r.id && e.slot == r.slot);
    let a = id_clash_issue(path, r.id, first_clash(prev, e, by_id()));
    let b = slot_range_issue(path, r.slot, m.slot_count);
    let c = slot_clash_issue(path, r.slot, first_clash(prev, e, by_slot()));
    let rest = resource_issues(r, path, canonical);
    if si.resources[j].id == r.id {
        lemma_first_clash_found(prev, e, by_id(), t);
        let x = a[0];
        assert(a.contains(x));
        lemma_contains_left(a, b, x);
        lemma_contains_left(a + b, c, x);
        lemma_contains_left(a + b + c, rest, x);
        lemma_registration_reported(m, k, l, canonical, x);
        lemma_contains_reports(validation_issues(m, canonical), x);
    }
    if si.resources[j].slot == r.slot {
        lemma_first_clash_found(prev, e, by_slot(), t);
        let x = c[0];
        assert(c.contains(x));
        lemma_contains_right(a + b, c, x);
        lemma_contains_left(a + b + c, rest, x);
        lemma_registration_reported(m, k, l, canonical, x);
        lemma_contains_reports(validation_issues(m, canonical), x);
    }
}

/// `issues` holds an issue of `severity` with `code` at `path`.
pub open spec fn reports(
    issues: Seq<IssueView>,
    severity: ValidationSeverity,
    code: ValidationCode,
    path: Seq<char>,
) -> bool {
    exists|k: int|
        0 <= k < issues.len() && (#[trigger] issues[k]).severity == severity && issues[k].code == code
            && issues[k].path == path
}

proof fn lemma_in_resource_issues(r: ResourceView, path: Seq<char>, canonical: bool, x: IssueView)
    requires
        geometry_issue(path, "ax"@, r.ax).contains(x) || geometry_issue(path, "ay"@, r.ay).contains(x)
            || geometry_issue(path, "aw"@, r.aw).contains(x) || geometry_issue(path, "ah"@, r.ah).contains(x)
            || grid_issue(path, "cols"@, r.cols).contains(x) || grid_issue(path, "rows"@, r.rows).contains(x)
            || kind_issues(r, path, canonical).contains(x),
    ensures
        resource_issues(r, path, canonical).contains(x),
{
    let g1 = geometry_issue(path, "ax"@, r.ax);
    let g2 = geometry_issue(path, "ay"@, r.ay);
    let g3 = geometry_issue(path, "aw"@, r.aw);
    let g4 = geometry_issue(path, "ah"@, r.ah);
    let g5 = grid_issue(path, "cols"@, r.cols);
    let g6 = grid_issue(path, "rows"@, r.rows);
    let k = kind_issues(r, path, canonical);
    if g1.contains(x) {
        lemma_contains_left(g1, g2, x);
    } else if g2.contains(x) {
        lemma_contains_right(g1, g2, x);
    }
    if g1.contains(x) || g2.contains(x) {
        lemma_contains_left(g1 + g2, g3, x);
    } else if g3.contains(x) {
        lemma_contains_right(g1 + g2, g3, x);
    }
    if g1.contains(x) || g2.contains(x) || g3.contains(x) {
        lemma_contains_left(g1 + g2 + g3, g4, x);
    } else if g4.contains(x) {
        lemma_contains_right(g1 + g2 + g3, g4, x);
    }
    if g1.contains(x) || g2.contains(x) || g3.contains(x) || g4.contains(x) {
        lemma_contains_left(g1 + g2 + g3 + g4, g5, x);
    } else if g5.contains(x) {
        lemma_contains_right(g1 + g2 + g3 + g4, g5, x);
    }
    if g1.contains(x) || g2.contains(x) || g3.contains(x) || g4.contains(x) || g5.contains(x) {
        lemma_contains_left(g1 + g2 + g3 + g4 + g5, g6, x);
    } else if g6.contains(x) {
        lemma_contains_right(g1 + g2 + g3 + g4 + g5, g6, x);
    }
    if k.contains(x) {
        lemma_contains_right(g1 + g2 + g3 + g4 + g5 + g6, k, x);
    } else {
        lemma_contains_left(g1 + g2 + g3 + g4 + g5 + g6, k, x);
    }
}

proof fn lemma_resource_issue_reported(m: ManifestView, i: int, j: int, canonical: bool, x: IssueView)
    requires
        0 <= i < m.groups.len(),
        m.groups[i] is Simple,
        0 <= j < m.groups[i]->Simple_0.resources.len(),
        resource_issues(m.groups[i]->Simple_0.resources[j], resource_path(i, j), canonical).contains(x),
    ensures
        reports(validation_issues(m, canonical), x.severity, x.code, x.path),
{
    let s = m.groups[i]->Simple_0;
    let r = s.resources[j];
    let path = resource_path(i, j);
    let entries = group_entries(GroupView::Simple(s), i);
    let e = entries[j];
    let prev = entries_before(m.groups, i) + entries.take(j);
    let head = id_clash_issue(path, r.id, first_clash(prev, e, by_id())) + slot_range_issue(
        path,
        r.slot,
        m.slot_count,
    ) + slot_clash_issue(path, r.slot, first_clash(prev, e, by_slot()));
    lemma_contains_right(head, resource_issues(r, path, canonical), x);
    lemma_registration_reported(m, i, j, canonical, x);
    let issues = validation_issues(m, canonical);
    let k = choose|k: int| 0 <= k < issues.len() && issues[k] == x;
    assert(issues[k] == x);
}

proof fn lemma_first_reported(m: ManifestView, i: int, j: int, canonical: bool, piece: Seq<IssueView>)
    requires
        0 <= i < m.groups.len(),
        m.groups[i] is Simple,
        0 <= j < m.groups[i]->Simple_0.resources.len(),
        piece.len() > 0,
        ({
            let r = m.groups[i]->Simple_0.resources[j];
            let path = resource_path(i, j);
            ||| piece == geometry_issue(path, "ax"@, r.ax)
            ||| piece == geometry_issue(path, "ay"@, r.ay)
            ||| piece == geometry_issue(path, "aw"@, r.aw)
            ||| piece == geometry_issue(path, "ah"@, r.ah)
            ||| piece == grid_issue(path, "cols"@, r.cols)
            ||| piece == grid_issue(path, "rows"@, r.rows)
            ||| piece == kind_issues(r, path, canonical)
        }),
    ensures
        reports(validation_issues(m, canonical), piece[0].severity, piece[0].code, piece[0].path),
{
    let x = piece[0];
    assert(piece.contains(x));
    lemma_in_resource_issues(m.groups[i]->Simple_0.resources[j], resource_path(i, j), canonical, x);
    lemma_resource_issue_reported(m, i, j, canonical, x);
}

/// The checks made on each resource record are reported at its path: atlas
/// geometry beyond 16 bits, a grid size of `0`, a sprite without both
/// coordinates or a non-zero atlas size, image metadata on a resource that
/// is not an image (a warning at runtime, an error in the canonical profile),
/// and, in the canonical profile, a sprite that stores a width or height.
pub proof fn resource_checks_are_reported(m: ManifestView, canonical: bool, i: int, j: int)
    requires
        0 <= i < m.groups.len(),
        m.groups[i] is Simple,
        0 <= j < m.groups[i]->Simple_0.resources.len(),
    ensures
        ({
            let r = m.groups[i]->Simple_0.resources[j];
            let path = resource_path(i, j);
            let issues = validation_issues(m, canonical);
            let error = ValidationSeverity::Error;
            &&& (r.ax matches Some(v) && v > 0xffff) ==> reports(issues, error, ValidationCode::GeometryOutOfRange, path + "."@ + "ax"@)
            &&& (r.ay matches Some(v) && v > 0xffff) ==> reports(issues, error, ValidationCode::GeometryOutOfRange, path + "."@ + "ay"@)
            &&& (r.aw matches Some(v) && v > 0xffff) ==> reports(issues, error, ValidationCode::GeometryOutOfRange, path + "."@ + "aw"@)
            &&& (r.ah matches Some(v) && v > 0xffff) ==> reports(issues, error, ValidationCode::GeometryOutOfRange, path + "."@ + "ah"@)
            &&& r.cols == Some(0u32) ==> reports(issues, error, ValidationCode::InvalidGridSize, path + "."@ + "cols"@)
            &&& r.rows == Some(0u32) ==> reports(issues, error, ValidationCode::InvalidGridSize, path + "."@ + "rows"@)
            &&& (r.resource_type == ResourceType::Image && !r.atlas && r.parent is Some && (r.x is None
                || r.y is None || r.aw is None || r.ah is None || r.aw == Some(0u32) || r.ah == Some(
                0u32,
            ))) ==> reports(issues, error, ValidationCode::InvalidSprite, path)
            &&& (r.resource_type == ResourceType::Image && !r.atlas && r.parent is Some && canonical && (
            r.width is Some || r.height is Some)) ==> reports(issues, error, ValidationCode::UnexpectedResourceMetadata, path)
            &&& (r.resource_type != ResourceType::Image && (r.width is Some || r.height is Some || r.x is Some
                || r.y is Some || r.ax is Some || r.ay is Some || r.aw is Some || r.ah is Some || r.cols is Some
                || r.rows is Some || r.atlas || r.parent is Some)) ==> reports(
                issues,
                if canonical { ValidationSeverity::Error } else { ValidationSeverity::Warning },
                ValidationCode::UnexpectedResourceMetadata,
                path,
            )
        }),
{
    let r = m.groups[i]->Simple_0.resources[j];
    let path = resource_path(i, j);
    if r.ax matches Some(v) && v > 0xffff {
        lemma_first_reported(m, i, j, canonical, geometry_issue(path, "ax"@, r.ax));
    }
    if r.ay matches Some(v) && v > 0xffff {
        lemma_first_reported(m, i, j, canonical, geometry_issue(path, "ay"@, r.ay));
    }
    if r.aw matches Some(v) && v > 0xffff {
        lemma_first_reported(m, i, j, canonical, geometry_issue(path, "aw"@, r.aw));
    }
    if r.ah matches Some(v) && v > 0xffff {
        lemma_first_reported(m, i, j, canonical, geometry_issue(path, "ah"@, r.ah));
    }
    if r.cols == Some(0u32) {
        lemma_first_reported(m, i, j, canonical, grid_issue(path, "cols"@, r.cols));
    }
    if r.rows == Some(0u32) {
        lemma_first_reported(m, i, j, canonical, grid_issue(path, "rows"@, r.rows));
    }
    let k = kind_issues(r, path, canonical);
    if r.resource_type == ResourceType::Image && !r.atlas && r.parent is Some {
        let sprite = error_if(
            r.atlas || r.x is None || r.y is None || r.aw is None || r.ah is None || r.aw == Some(0u32)
                || r.ah == Some(0u32),
            ValidationCode::InvalidSprite,
            path,
            "sprite image must have x/y/aw/ah, a parent, and atlas=false"@,
        );
        let extra = error_if(
            canonical && (r.width is Some || r.height is Some),
            ValidationCode::UnexpectedResourceMetadata,
            path,
            "canonical sprite image does not store width/height"@,
        );
        assert(k == sprite + extra);
        if sprite.len() > 0 {
            assert(k[0] == sprite[0]);
            lemma_first_reported(m, i, j, canonical, k);
        }
        if extra.len() > 0 {
            let x = extra[0];
            assert(extra.contains(x));
            lemma_contains_right(sprite, extra, x);
            lemma_in_resource_issues(r, path, canonical, x);
            lemma_resource_issue_reported(m, i, j, canonical, x);
        }
    }
    if r.resource_type != ResourceType::Image && has_image_metadata(r) {
        assert(k.len() == 1);
        lemma_first_reported(m, i, j, canonical, k);
    }
}

/// A group whose ID an earlier group already used is reported at its ID, in
/// both profiles.
pub proof fn duplicate_group_ids_are_reported(m: ManifestView, canonical: bool, i: int, k: int)
    requires
        0 <= i < k < m.groups.len(),
        m.groups[i].id() == m.groups[k].id(),
    ensures
        reports(
            validation_issues(m, canonical),
            ValidationSeverity::Error,
            ValidationCode::DuplicateGroupId,
            group_path(k) + ".id"@,
        ),
{
    lemma_last_group_found(m.groups, k, i, m.groups[k].id());
    let d = duplicate_group_issue(m, k);
    let x = d[0];
    assert(d.contains(x));
    let rest = match m.groups[k] {
        GroupView::Simple(s) => registrations(m, k, s, s.resources.len() as int, canonical),
        GroupView::Composite(_) => Seq::empty(),
    };
    lemma_contains_left(d, rest, x);
    lemma_in_pass(m, k, m.groups.len() as int, canonical, x);
    let n = m.groups.len() as int;
    lemma_contains_left(registration_pass(m, n, canonical), reference_pass(m, n), x);
    lemma_contains_left(registration_pass(m, n, canonical) + reference_pass(m, n), slot_table_issue(m, canonical), x);
    let issues = validation_issues(m, canonical);
    let t = choose|t: int| 0 <= t < issues.len() && issues[t] == x;
    assert(issues[t] == x);
}

proof fn lemma_last_group_found(groups: Seq<GroupView>, bound: int, i: int, id: Seq<char>)
    requires
        0 <= i < bound <= groups.len(),
        groups[i].id() == id,
    ensures
        last_group_with_id(groups, bound, id) matches Some(x) && i <= x < bound && groups[x].id() == id,
    decreases bound,
{
    if bound - 1 != i && groups[bound - 1].id() != id {
        lemma_last_group_found(groups, bound - 1, i, id);
    }
}

// ----- every reported issue has its cause -----

/// A code that only the checks of references report.
pub open spec fn is_reference_code(code: ValidationCode) -> bool {
    ||| code == ValidationCode::MissingGroupReference
    ||| code == ValidationCode::WrongGroupReferenceKind
    ||| code == ValidationCode::MissingAtlasReference
    ||| code == ValidationCode::InvalidAtlasReference
}

spec fn reference_codes_only(a: Seq<IssueView>) -> bool {
    forall|k: int| 0 <= k < a.len() ==> is_reference_code((#[trigger] a[k]).code)
}

proof fn lemma_reference_codes_add(a: Seq<IssueView>, b: Seq<IssueView>)
    requires
        reference_codes_only(a),
        reference_codes_only(b),
    ensures
        reference_codes_only(a + b),
{
    assert forall|k: int| 0 <= k < (a + b).len() implies is_reference_code((#[trigger] (a + b)[k]).code) by {
        if k < a.len() {
            assert((a + b)[k] == a[k]);
        } else {
            assert((a + b)[k] == b[k - a.len()]);
        }
    }
}

proof fn lemma_subgroup_checks_codes(m: ManifestView, i: int, subs: Seq<crate::types::SubgroupView>, k: int)
    ensures
        reference_codes_only(subgroup_checks(m, i, subs, k)),
    decreases k,
{
    if k > 0 {
        lemma_subgroup_checks_codes(m, i, subs, k - 1);
        lemma_reference_codes_add(subgroup_checks(m, i, subs, k - 1), subgroup_issue(m, i, k - 1, subs[k - 1].id));
    }
}

proof fn lemma_atlas_checks_codes(i: int, s: SimpleGroupView, j: int)
    ensures
        reference_codes_only(atlas_checks(i, s, j)),
    decreases j,
{
    if j > 0 {
        lemma_atlas_checks_codes(i, s, j - 1);
        lemma_reference_codes_add(atlas_checks(i, s, j - 1), atlas_issue(i, s, j - 1));
    }
}

proof fn lemma_reference_pass_codes(m: ManifestView, i: int)
    ensures
        reference_codes_only(reference_pass(m, i)),
    decreases i,
{
    if i > 0 {
        lemma_reference_pass_codes(m, i - 1);
        let rest = match m.groups[i - 1] {
            GroupView::Composite(c) => {
                lemma_subgroup_checks_codes(m, i - 1, c.subgroups, c.subgroups.len() as int);
                subgroup_checks(m, i - 1, c.subgroups, c.subgroups.len() as int)
            },
            GroupView::Simple(s) => {
                lemma_atlas_checks_codes(i - 1, s, s.resources.len() as int);
                atlas_checks(i - 1, s, s.resources.len() as int)
            },
        };
        lemma_reference_codes_add(parent_issue(m, i - 1), rest);
        lemma_reference_codes_add(reference_pass(m, i - 1), reference_issues(m, i - 1));
    }
}

proof fn lemma_contains_split(a: Seq<IssueView>, b: Seq<IssueView>, x: IssueView)
    requires
        (a + b).contains(x),
    ensures
        a.contains(x) || b.contains(x),
{
    let k = choose|k: int| 0 <= k < (a + b).len() && (a + b)[k] == x;
    if k < a.len() {
        assert(a[k] == x);
    } else {
        assert(b[k - a.len()] == x);
    }
}

/// Resource `j` of group `i` is a resource of a simple group.
pub open spec fn is_resource_at(m: ManifestView, i: int, j: int) -> bool {
    &&& 0 <= i < m.groups.len()
    &&& m.groups[i] is Simple
    &&& 0 <= j < m.groups[i]->Simple_0.resources.len()
}

proof fn lemma_registrations_origin(
    m: ManifestView,
    i: int,
    s: SimpleGroupView,
    n: int,
    canonical: bool,
    x: IssueView,
) -> (j: int)
    requires
        registrations(m, i, s, n, canonical).contains(x),
    ensures
        0 <= j < n,
        registration_issues(m, i, s, j, canonical).contains(x),
    decreases n,
{
    if n <= 0 {
        assert(false);
        0
    } else {
        lemma_contains_split(registrations(m, i, s, n - 1, canonical), registration_issues(m, i, s, n - 1, canonical), x);
        if registration_issues(m, i, s, n - 1, canonical).contains(x) {
            n - 1
        } else {
            lemma_registrations_origin(m, i, s, n - 1, canonical, x)
        }
    }
}

proof fn lemma_pass_origin(m: ManifestView, n: int, canonical: bool, x: IssueView) -> (i: int)
    requires
        registration_pass(m, n, canonical).contains(x),
    ensures
        0 <= i < n,
        group_registration_issues(m, i, canonical).contains(x),
    decreases n,
{
    if n <= 0 {
        assert(false);
        0
    } else {
        lemma_contains_split(registration_pass(m, n - 1, canonical), group_registration_issues(m, n - 1, canonical), x);
        if group_registration_issues(m, n - 1, canonical).contains(x) {
            n - 1
        } else {
            lemma_pass_origin(m, n - 1, canonical, x)
        }
    }
}

/// An issue of the report that no reference check, group check or slot table
/// check raised was raised while registering some resource.
proof fn lemma_resource_origin(m: ManifestView, canonical: bool, x: IssueView) -> (w: (int, int))
    requires
        validation_issues(m, canonical).contains(x),
        !is_reference_code(x.code),
        x.code != ValidationCode::DuplicateGroupId,
        x.code != ValidationCode::IncompleteSlotTable,
    ensures
        is_resource_at(m, w.0, w.1),
        registration_issues(m, w.0, m.groups[w.0]->Simple_0, w.1, canonical).contains(x),
{
    let n = m.groups.len() as int;
    let reg = registration_pass(m, n, canonical);
    let refs = reference_pass(m, n);
    let slot = slot_table_issue(m, canonical);
    lemma_contains_split(reg + refs, slot, x);
    if slot.contains(x) {
        let k = choose|k: int| 0 <= k < slot.len() && slot[k] == x;
        assert(false);
    }
    lemma_contains_split(reg, refs, x);
    if refs.contains(x) {
        lemma_reference_pass_codes(m, n);
        let k = choose|k: int| 0 <= k < refs.len() && refs[k] == x;
        assert(is_reference_code(refs[k].code));
        assert(false);
    }
    let i = lemma_pass_origin(m, n, canonical, x);
    let d = duplicate_group_issue(m, i);
    let rest = match m.groups[i] {
        GroupView::Simple(s) => registrations(m, i, s, s.resources.len() as int, canonical),
        GroupView::Composite(_) => Seq::empty(),
    };
    lemma_contains_split(d, rest, x);
    if d.contains(x) {
        let k = choose|k: int| 0 <= k < d.len() && d[k] == x;
        assert(false);
    }
    if m.groups[i] is Composite {
        assert(rest.len() == 0);
        assert(false);
    }
    let s = m.groups[i]->Simple_0;
    let j = lemma_registrations_origin(m, i, s, s.resources.len() as int, canonical, x);
    (i, j)
}

proof fn lemma_singleton_origin(p: Seq<IssueView>, x: IssueView)
    requires
        p.contains(x),
        p.len() <= 1,
    ensures
        x == p[0],
{
    let k = choose|k: int| 0 <= k < p.len() && p[k] == x;
}

proof fn lemma_first_clash_origin<K>(prev: Seq<EntryView>, e: EntryView, key: spec_fn(EntryView) -> K) -> (t: int)
    requires
        first_clash(prev, e, key) is Some,
    ensures
        0 <= t < prev.len(),
        key(prev[t]) == key(e),
        !mutually_exclusive(prev[t].location, e.location),
    decreases prev.len(),
{
    if key(prev[0]) == key(e) && !mutually_exclusive(prev[0].location, e.location) {
        0
    } else {
        let t = lemma_first_clash_origin(prev.drop_first(), e, key);
        assert(prev[t + 1] == prev.drop_first()[t]);
        t + 1
    }
}

proof fn lemma_entry_origin(groups: Seq<GroupView>, n: int, t: int) -> (w: (int, int))
    requires
        0 <= n <= groups.len(),
        0 <= t < entries_before(groups, n).len(),
    ensures
        0 <= w.0 < n,
        groups[w.0] is Simple,
        0 <= w.1 < groups[w.0]->Simple_0.resources.len(),
        entries_before(groups, n)[t] == group_entries(groups[w.0], w.0)[w.1],
    decreases n,
{
    let before = entries_before(groups, n - 1);
    let here = group_entries(groups[n - 1], n - 1);
    assert(entries_before(groups, n) == before + here);
    if t < before.len() {
        let w = lemma_entry_origin(groups, n - 1, t);
        assert(entries_before(groups, n)[t] == before[t]);
        w
    } else {
        if groups[n - 1] is Composite {
            assert(here.len() == 0);
        }
        assert(entries_before(groups, n)[t] == here[t - before.len()]);
        (n - 1, t - before.len())
    }
}

/// The resource that resource `j` of group `i` names.
pub open spec fn resource_at(m: ManifestView, i: int, j: int) -> ResourceView {
    m.groups[i]->Simple_0.resources[j]
}

/// An earlier resource `(i, j)` that the resource `(k, l)` clashes with by
/// `same` (ID or slot): the two are not resolution alternatives, that is not
/// both in different groups that are children of one composite group with
/// two different resolutions.
pub open spec fn clashes_with(m: ManifestView, i: int, j: int, k: int, l: int) -> bool {
    &&& is_resource_at(m, i, j)
    &&& is_resource_at(m, k, l)
    &&& (i < k || (i == k && j < l))
    &&& !(i != k && m.groups[i]->Simple_0.parent is Some && m.groups[i]->Simple_0.parent
        == m.groups[k]->Simple_0.parent && m.groups[i]->Simple_0.resolution is Some
        && m.groups[k]->Simple_0.resolution is Some && m.groups[i]->Simple_0.resolution
        != m.groups[k]->Simple_0.resolution)
}

proof fn lemma_clash_origin(m: ManifestView, k: int, l: int, by_slot_key: bool) -> (w: (int, int))
    requires
        is_resource_at(m, k, l),
        ({
            let s = m.groups[k]->Simple_0;
            let entries = group_entries(GroupView::Simple(s), k);
            let prev = entries_before(m.groups, k) + entries.take(l);
            if by_slot_key {
                first_clash(prev, entries[l], by_slot()) is Some
            } else {
                first_clash(prev, entries[l], by_id()) is Some
            }
        }),
    ensures
        clashes_with(m, w.0, w.1, k, l),
        by_slot_key ==> resource_at(m, w.0, w.1).slot == resource_at(m, k, l).slot,
        !by_slot_key ==> resource_at(m, w.0, w.1).id == resource_at(m, k, l).id,
{
    let s = m.groups[k]->Simple_0;
    let entries = group_entries(GroupView::Simple(s), k);
    let before = entries_before(m.groups, k);
    let prev = before + entries.take(l);
    let e = entries[l];
    let t = if by_slot_key {
        lemma_first_clash_origin(prev, e, by_slot())
    } else {
        lemma_first_clash_origin(prev, e, by_id())
    };
    if t < before.len() {
        assert(prev[t] == before[t]);
        lemma_entry_origin(m.groups, k, t)
    } else {
        assert(prev[t] == entries[t - before.len()]);
        (k, t - before.len())
    }
}

proof fn lemma_registration_cause(m: ManifestView, i: int, j: int, canonical: bool, x: IssueView)
    requires
        is_resource_at(m, i, j),
        registration_issues(m, i, m.groups[i]->Simple_0, j, canonical).contains(x),
    ensures
        ({
            let r = resource_at(m, i, j);
            let path = resource_path(i, j);
            &&& x.code == ValidationCode::SlotOutOfRange ==> r.slot >= m.slot_count && x.path == path + ".slot"@
            &&& x.code == ValidationCode::InvalidAtlasImage ==> x.path == path && r.resource_type
                == ResourceType::Image && r.atlas && (r.width is None || r.height is None || r.width
                == Some(0u32) || r.height == Some(0u32) || r.parent is Some)
            &&& x.code == ValidationCode::GeometryOutOfRange ==> ((x.path == path + "."@ + "ax"@
                && (r.ax matches Some(v) && v > 0xffff)) || (x.path == path + "."@ + "ay"@
                && (r.ay matches Some(v) && v > 0xffff)) || (x.path == path + "."@ + "aw"@
                && (r.aw matches Some(v) && v > 0xffff)) || (x.path == path + "."@ + "ah"@
                && (r.ah matches Some(v) && v > 0xffff)))
            &&& x.code == ValidationCode::InvalidGridSize ==> ((x.path == path + "."@ + "cols"@
                && r.cols == Some(0u32)) || (x.path == path + "."@ + "rows"@ && r.rows == Some(0u32)))
            &&& x.code == ValidationCode::InvalidSprite ==> x.path == path && r.resource_type
                == ResourceType::Image && !r.atlas && r.parent is Some && (r.x is None || r.y is None
                || r.aw is None || r.ah is None || r.aw == Some(0u32) || r.ah == Some(0u32))
            &&& x.code == ValidationCode::UnexpectedResourceMetadata ==> x.path == path && ((
            r.resource_type != ResourceType::Image && has_image_metadata(r) && x.severity == (if canonical {
                ValidationSeverity::Error
            } else {
                ValidationSeverity::Warning
            })) || (canonical && r.resource_type == ResourceType::Image && !r.atlas && r.parent is Some
                && (r.width is Some || r.height is Some) && x.severity == ValidationSeverity::Error))
            &&& x.code == ValidationCode::DuplicateResourceId ==> x.path == path + ".id"@ && exists|a: int, b: int|
                #[trigger] clashes_with(m, a, b, i, j) && resource_at(m, a, b).id == r.id
            &&& x.code == ValidationCode::DuplicateSlot ==> x.path == path + ".slot"@ && exists|a: int, b: int|
                #[trigger] clashes_with(m, a, b, i, j) && resource_at(m, a, b).slot == r.slot
            &&& x.code != ValidationCode::DuplicateGroupId && x.code != ValidationCode::IncompleteSlotTable
                && !is_reference_code(x.code)
        }),
{
    let s = m.groups[i]->Simple_0;
    let r = s.resources[j];
    let path = resource_path(i, j);
    let entries = group_entries(GroupView::Simple(s), i);
    let e = entries[j];
    let prev = entries_before(m.groups, i) + entries.take(j);
    let a = id_clash_issue(path, r.id, first_clash(prev, e, by_id()));
    let b = slot_range_issue(path, r.slot, m.slot_count);
    let c = slot_clash_issue(path, r.slot, first_clash(prev, e, by_slot()));
    let g1 = geometry_issue(path, "ax"@, r.ax);
    let g2 = geometry_issue(path, "ay"@, r.ay);
    let g3 = geometry_issue(path, "aw"@, r.aw);
    let g4 = geometry_issue(path, "ah"@, r.ah);
    let g5 = grid_issue(path, "cols"@, r.cols);
    let g6 = grid_issue(path, "rows"@, r.rows);
    let k = kind_issues(r, path, canonical);
    lemma_contains_split(a + b + c, g1 + g2 + g3 + g4 + g5 + g6 + k, x);
    if (a + b + c).contains(x) {
        lemma_contains_split(a + b, c, x);
        if (a + b).contains(x) {
            lemma_contains_split(a, b, x);
            if a.contains(x) {
                lemma_singleton_origin(a, x);
                let w = lemma_clash_origin(m, i, j, false);
                assert(clashes_with(m, w.0, w.1, i, j));
            } else {
                lemma_singleton_origin(b, x);
            }
        } else {
            lemma_singleton_origin(c, x);
            let w = lemma_clash_origin(m, i, j, true);
            assert(clashes_with(m, w.0, w.1, i, j));
        }
    } else {
        lemma_contains_split(g1 + g2 + g3 + g4 + g5 + g6, k, x);
        if k.contains(x) {
            if r.resource_type == ResourceType::Image && !r.atlas && r.parent is Some {
                let sprite = error_if(
                    r.atlas || r.x is None || r.y is None || r.aw is None || r.ah is None || r.aw
                        == Some(0u32) || r.ah == Some(0u32),
                    ValidationCode::InvalidSprite,
                    path,
                    "sprite image must have x/y/aw/ah, a parent, and atlas=false"@,
                );
                let extra = error_if(
                    canonical && (r.width is Some || r.height is Some),
                    ValidationCode::UnexpectedResourceMetadata,
                    path,
                    "canonical sprite image does not store width/height"@,
                );
                assert(k == sprite + extra);
                lemma_contains_split(sprite, extra, x);
                if sprite.contains(x) {
                    lemma_singleton_origin(sprite, x);
                } else {
                    lemma_singleton_origin(extra, x);
                }
            } else {
                lemma_singleton_origin(k, x);
            }
        } else {
            lemma_contains_split(g1 + g2 + g3 + g4 + g5, g6, x);
            if g6.contains(x) {
                lemma_singleton_origin(g6, x);
            } else {
                lemma_contains_split(g1 + g2 + g3 + g4, g5, x);
                if g5.contains(x) {
                    lemma_singleton_origin(g5, x);
                } else {
                    lemma_contains_split(g1 + g2 + g3, g4, x);
                    if g4.contains(x) {
                        lemma_singleton_origin(g4, x);
                    } else {
                        lemma_contains_split(g1 + g2, g3, x);
                        if g3.contains(x) {
                            lemma_singleton_origin(g3, x);
                        } else {
                            lemma_contains_split(g1, g2, x);
                            if g2.contains(x) {
                                lemma_singleton_origin(g2, x);
                            } else {
                                lemma_singleton_origin(g1, x);
                            }
                        }
                    }
                }
            }
        }
    }
}

/// Every issue that the report raises while registering resources has its
/// cause in a resource record: a slot not below the slot count, an atlas
/// image without a non-zero size or with a parent, atlas geometry beyond 16
/// bits, a grid size of `0`, a sprite without both coordinates or a non-zero
/// atlas size, image metadata where it does not belong, or an earlier
/// resource with the same ID or slot that is not a resolution alternative of
/// it. So no check reports a record that meets it.
pub proof fn reported_resource_issues_have_causes(m: ManifestView, canonical: bool, x: IssueView)
    requires
        validation_issues(m, canonical).contains(x),
        !is_reference_code(x.code),
        x.code != ValidationCode::DuplicateGroupId,
        x.code != ValidationCode::IncompleteSlotTable,
    ensures
        exists|i: int, j: int|
            #[trigger] is_resource_at(m, i, j) && ({
            let r = resource_at(m, i, j);
            let path = resource_path(i, j);
            &&& x.code == ValidationCode::SlotOutOfRange ==> r.slot >= m.slot_count && x.path == path + ".slot"@
            &&& x.code == ValidationCode::InvalidAtlasImage ==> x.path == path && r.resource_type
                == ResourceType::Image && r.atlas && (r.width is None || r.height is None || r.width
                == Some(0u32) || r.height == Some(0u32) || r.parent is Some)
            &&& x.code == ValidationCode::GeometryOutOfRange ==> ((x.path == path + "."@ + "ax"@
                && (r.ax matches Some(v) && v > 0xffff)) || (x.path == path + "."@ + "ay"@
                && (r.ay matches Some(v) && v > 0xffff)) || (x.path == path + "."@ + "aw"@
                && (r.aw matches Some(v) && v > 0xffff)) || (x.path == path + "."@ + "ah"@
                && (r.ah matches Some(v) && v > 0xffff)))
            &&& x.code == ValidationCode::InvalidGridSize ==> ((x.path == path + "."@ + "cols"@
                && r.cols == Some(0u32)) || (x.path == path + "."@ + "rows"@ && r.rows == Some(0u32)))
            &&& x.code == ValidationCode::InvalidSprite ==> x.path == path && r.resource_type
                == ResourceType::Image && !r.atlas && r.parent is Some && (r.x is None || r.y is None
                || r.aw is None || r.ah is None || r.aw == Some(0u32) || r.ah == Some(0u32))
            &&& x.code == ValidationCode::UnexpectedResourceMetadata ==> x.path == path && ((
            r.resource_type != ResourceType::Image && (r.width is Some || r.height is Some || r.x is Some
                || r.y is Some || r.ax is Some || r.ay is Some || r.aw is Some || r.ah is Some || r.cols is Some
                || r.rows is Some || r.atlas || r.parent is Some) && x.severity == (if canonical {
                ValidationSeverity::Error
            } else {
                ValidationSeverity::Warning
            })) || (canonical && r.resource_type == ResourceType::Image && !r.atlas && r.parent is Some
                && (r.width is Some || r.height is Some) && x.severity == ValidationSeverity::Error))
            &&& x.code == ValidationCode::DuplicateResourceId ==> x.path == path + ".id"@ && exists|a: int, b: int|
                #[trigger] clashes_with(m, a, b, i, j) && resource_at(m, a, b).id == r.id
            &&& x.code == ValidationCode::DuplicateSlot ==> x.path == path + ".slot"@ && exists|a: int, b: int|
                #[trigger] clashes_with(m, a, b, i, j) && resource_at(m, a, b).slot == r.slot
        }),
{
    let w = lemma_resource_origin(m, canonical, x);
    lemma_registration_cause(m, w.0, w.1, canonical, x);
    let i = w.0;
    let j = w.1;
    assert(is_resource_at(m, i, j) && ({
            let r = resource_at(m, i, j);
            let path = resource_path(i, j);
            &&& x.code == ValidationCode::SlotOutOfRange ==> r.slot >= m.slot_count && x.path == path + ".slot"@
            &&& x.code == ValidationCode::InvalidAtlasImage ==> x.path == path && r.resource_type
                == ResourceType::Image && r.atlas && (r.width is None || r.height is None || r.width
                == Some(0u32) || r.height == Some(0u32) || r.parent is Some)
            &&& x.code == ValidationCode::GeometryOutOfRange ==> ((x.path == path + "."@ + "ax"@
                && (r.ax matches Some(v) && v > 0xffff)) || (x.path == path + "."@ + "ay"@
                && (r.ay matches Some(v) && v > 0xffff)) || (x.path == path + "."@ + "aw"@
                && (r.aw matches Some(v) && v > 0xffff)) || (x.path == path + "."@ + "ah"@
                && (r.ah matches Some(v) && v > 0xffff)))
            &&& x.code == ValidationCode::InvalidGridSize ==> ((x.path == path + "."@ + "cols"@
                && r.cols == Some(0u32)) || (x.path == path + "."@ + "rows"@ && r.rows == Some(0u32)))
            &&& x.code == ValidationCode::InvalidSprite ==> x.path == path && r.resource_type
                == ResourceType::Image && !r.atlas && r.parent is Some && (r.x is None || r.y is None
                || r.aw is None || r.ah is None || r.aw == Some(0u32) || r.ah == Some(0u32))
            &&& x.code == ValidationCode::UnexpectedResourceMetadata ==> x.path == path && ((
            r.resource_type != ResourceType::Image && (r.width is Some || r.height is Some || r.x is Some
                || r.y is Some || r.ax is Some || r.ay is Some || r.aw is Some || r.ah is Some || r.cols is Some
                || r.rows is Some || r.atlas || r.parent is Some) && x.severity == (if canonical {
                ValidationSeverity::Error
            } else {
                ValidationSeverity::Warning
            })) || (canonical && r.resource_type == ResourceType::Image && !r.atlas && r.parent is Some
                && (r.width is Some || r.height is Some) && x.severity == ValidationSeverity::Error))
            &&& x.code == ValidationCode::DuplicateResourceId ==> x.path == path + ".id"@ && exists|a: int, b: int|
                #[trigger] clashes_with(m, a, b, i, j) && resource_at(m, a, b).id == r.id
            &&& x.code == ValidationCode::DuplicateSlot ==> x.path == path + ".slot"@ && exists|a: int, b: int|
                #[trigger] clashes_with(m, a, b, i, j) && resource_at(m, a, b).slot == r.slot
    }));
}

// ----- references -----

proof fn lemma_group_lookup(groups: Seq<GroupView>, bound: int, id: Seq<char>)
    requires
        0 <= bound <= groups.len(),
    ensures
        match last_group_with_id(groups, bound, id) {
            None => forall|k: int| 0 <= k < bound ==> (#[trigger] groups[k]).id() != id,
            Some(k) => 0 <= k < bound && groups[k].id() == id && forall|t: int|
                k < t < bound ==> (#[trigger] groups[t]).id() != id,
        },
    decreases bound,
{
    if bound > 0 {
        lemma_group_lookup(groups, bound - 1, id);
    }
}

proof fn lemma_resource_lookup(rs: Seq<ResourceView>, bound: int, id: Seq<char>)
    requires
        0 <= bound <= rs.len(),
    ensures
        match last_resource_with_id(rs, bound, id) {
            None => forall|k: int| 0 <= k < bound ==> (#[trigger] rs[k]).id != id,
            Some(k) => 0 <= k < bound && rs[k].id == id && forall|t: int|
                k < t < bound ==> (#[trigger] rs[t]).id != id,
        },
    decreases bound,
{
    if bound > 0 {
        lemma_resource_lookup(rs, bound - 1, id);
    }
}

proof fn lemma_in_reference_pass(m: ManifestView, i: int, n: int, x: IssueView)
    requires
        0 <= i < n,
        reference_issues(m, i).contains(x),
    ensures
        reference_pass(m, n).contains(x),
    decreases n,
{
    if n - 1 == i {
        lemma_contains_right(reference_pass(m, n - 1), reference_issues(m, i), x);
    } else {
        lemma_in_reference_pass(m, i, n - 1, x);
        lemma_contains_left(reference_pass(m, n - 1), reference_issues(m, n - 1), x);
    }
}

proof fn lemma_reference_reported(m: ManifestView, i: int, canonical: bool, x: IssueView)
    requires
        0 <= i < m.groups.len(),
        reference_issues(m, i).contains(x),
    ensures
        reports(validation_issues(m, canonical), x.severity, x.code, x.path),
{
    let n = m.groups.len() as int;
    lemma_in_reference_pass(m, i, n, x);
    lemma_contains_right(registration_pass(m, n, canonical), reference_pass(m, n), x);
    lemma_contains_left(registration_pass(m, n, canonical) + reference_pass(m, n), slot_table_issue(m, canonical), x);
    let issues = validation_issues(m, canonical);
    let k = choose|k: int| 0 <= k < issues.len() && issues[k] == x;
    assert(issues[k] == x);
}

proof fn lemma_in_subgroup_checks(m: ManifestView, i: int, subs: Seq<crate::types::SubgroupView>, t: int, n: int, x: IssueView)
    requires
        0 <= t < n,
        subgroup_issue(m, i, t, subs[t].id).contains(x),
    ensures
        subgroup_checks(m, i, subs, n).contains(x),
    decreases n,
{
    if n - 1 == t {
        lemma_contains_right(subgroup_checks(m, i, subs, n - 1), subgroup_issue(m, i, t, subs[t].id), x);
    } else {
        lemma_in_subgroup_checks(m, i, subs, t, n - 1, x);
        lemma_contains_left(subgroup_checks(m, i, subs, n - 1), subgroup_issue(m, i, n - 1, subs[n - 1].id), x);
    }
}

proof fn lemma_in_atlas_checks(i: int, s: SimpleGroupView, j: int, n: int, x: IssueView)
    requires
        0 <= j < n,
        atlas_issue(i, s, j).contains(x),
    ensures
        atlas_checks(i, s, n).contains(x),
    decreases n,
{
    if n - 1 == j {
        lemma_contains_right(atlas_checks(i, s, n - 1), atlas_issue(i, s, j), x);
    } else {
        lemma_in_atlas_checks(i, s, j, n - 1, x);
        lemma_contains_left(atlas_checks(i, s, n - 1), atlas_issue(i, s, n - 1), x);
    }
}

/// The path of entry `t` of the subgroup list of group `i`.
pub open spec fn subgroup_path(i: int, t: int) -> Seq<char> {
    group_path(i) + ".subgroups["@ + decimal(t as nat) + "].id"@
}

/// A group's parent must name a group, and the group that a lookup by that
/// ID finds (the last one) must be composite; otherwise the report has an
/// error at the group's parent.
pub proof fn broken_parents_are_reported(m: ManifestView, canonical: bool, i: int, k: int)
    requires
        0 <= i < m.groups.len(),
    ensures
        (m.groups[i].parent() is Some && forall|t: int| 0 <= t < m.groups.len() ==> (#[trigger] m.groups[t]).id()
            != m.groups[i].parent()->0) ==> reports(
            validation_issues(m, canonical),
            ValidationSeverity::Error,
            ValidationCode::MissingGroupReference,
            group_path(i) + ".parent"@,
        ),
        (0 <= k < m.groups.len() && m.groups[i].parent() == Some(m.groups[k].id()) && m.groups[k] is Simple
            && forall|t: int| k < t < m.groups.len() ==> (#[trigger] m.groups[t]).id() != m.groups[k].id())
            ==> reports(
            validation_issues(m, canonical),
            ValidationSeverity::Error,
            ValidationCode::WrongGroupReferenceKind,
            group_path(i) + ".parent"@,
        ),
{
    if m.groups[i].parent() is Some {
        let p = m.groups[i].parent()->0;
        lemma_group_lookup(m.groups, m.groups.len() as int, p);
        let d = parent_issue(m, i);
        if d.len() > 0 {
            let x = d[0];
            assert(d.contains(x));
            let rest = match m.groups[i] {
                GroupView::Composite(c) => subgroup_checks(m, i, c.subgroups, c.subgroups.len() as int),
                GroupView::Simple(s) => atlas_checks(i, s, s.resources.len() as int),
            };
            lemma_contains_left(d, rest, x);
            lemma_reference_reported(m, i, canonical, x);
        }
    }
}

/// Each subgroup entry of a composite group must name a group, and the group
/// that a lookup by that ID finds must be simple; otherwise the report has an
/// error at the entry.
pub proof fn broken_subgroups_are_reported(m: ManifestView, canonical: bool, i: int, t: int, k: int)
    requires
        0 <= i < m.groups.len(),
        m.groups[i] is Composite,
        0 <= t < m.groups[i]->Composite_0.subgroups.len(),
    ensures
        (forall|u: int| 0 <= u < m.groups.len() ==> (#[trigger] m.groups[u]).id()
            != m.groups[i]->Composite_0.subgroups[t].id) ==> reports(
            validation_issues(m, canonical),
            ValidationSeverity::Error,
            ValidationCode::MissingGroupReference,
            subgroup_path(i, t),
        ),
        (0 <= k < m.groups.len() && m.groups[i]->Composite_0.subgroups[t].id == m.groups[k].id()
            && m.groups[k] is Composite && forall|u: int| k < u < m.groups.len() ==> (#[trigger] m.groups[u]).id()
            != m.groups[k].id()) ==> reports(
            validation_issues(m, canonical),
            ValidationSeverity::Error,
            ValidationCode::WrongGroupReferenceKind,
            subgroup_path(i, t),
        ),
{
    let c = m.groups[i]->Composite_0;
    let q = c.subgroups[t].id;
    lemma_group_lookup(m.groups, m.groups.len() as int, q);
    let d = subgroup_issue(m, i, t, q);
    if d.len() > 0 {
        let x = d[0];
        assert(d.contains(x));
        lemma_in_subgroup_checks(m, i, c.subgroups, t, c.subgroups.len() as int, x);
        lemma_contains_right(parent_issue(m, i), subgroup_checks(m, i, c.subgroups, c.subgroups.len() as int), x);
        lemma_reference_reported(m, i, canonical, x);
    }
}

/// A resource's parent must name a resource of the same group, and the
/// resource that a lookup by that ID finds (the last one) must be an Image
/// atlas; otherwise the report has an error at the resource's parent.
pub proof fn broken_atlas_references_are_reported(m: ManifestView, canonical: bool, i: int, j: int, k: int)
    requires
        is_resource_at(m, i, j),
    ensures
        ({
            let rs = m.groups[i]->Simple_0.resources;
            (rs[j].parent is Some && forall|u: int| 0 <= u < rs.len() ==> (#[trigger] rs[u]).id != rs[j].parent->0)
        }) ==> reports(
            validation_issues(m, canonical),
            ValidationSeverity::Error,
            ValidationCode::MissingAtlasReference,
            resource_path(i, j) + ".parent"@,
        ),
        ({
            let rs = m.groups[i]->Simple_0.resources;
            &&& 0 <= k < rs.len()
            &&& rs[j].parent == Some(rs[k].id)
            &&& !(rs[k].resource_type == ResourceType::Image && rs[k].atlas)
            &&& forall|u: int| k < u < rs.len() ==> (#[trigger] rs[u]).id != rs[k].id
        }) ==> reports(
            validation_issues(m, canonical),
            ValidationSeverity::Error,
            ValidationCode::InvalidAtlasReference,
            resource_path(i, j) + ".parent"@,
        ),
{
    let s = m.groups[i]->Simple_0;
    if s.resources[j].parent is Some {
        let p = s.resources[j].parent->0;
        lemma_resource_lookup(s.resources, s.resources.len() as int, p);
        let d = atlas_issue(i, s, j);
        if d.len() > 0 {
            let x = d[0];
            assert(d.contains(x));
            lemma_in_atlas_checks(i, s, j, s.resources.len() as int, x);
            lemma_contains_right(parent_issue(m, i), atlas_checks(i, s, s.resources.len() as int), x);
            lemma_reference_reported(m, i, canonical, x);
        }
    }
}

proof fn lemma_reference_pass_origin(m: ManifestView, n: int, x: IssueView) -> (i: int)
    requires
        reference_pass(m, n).contains(x),
    ensures
        0 <= i < n,
        reference_issues(m, i).contains(x),
    decreases n,
{
    if n <= 0 {
        assert(false);
        0
    } else {
        lemma_contains_split(reference_pass(m, n - 1), reference_issues(m, n - 1), x);
        if reference_issues(m, n - 1).contains(x) {
            n - 1
        } else {
            lemma_reference_pass_origin(m, n - 1, x)
        }
    }
}

proof fn lemma_subgroup_checks_origin(m: ManifestView, i: int, subs: Seq<crate::types::SubgroupView>, n: int, x: IssueView) -> (t: int)
    requires
        subgroup_checks(m, i, subs, n).contains(x),
    ensures
        0 <= t < n,
        subgroup_issue(m, i, t, subs[t].id).contains(x),
    decreases n,
{
    if n <= 0 {
        assert(false);
        0
    } else {
        lemma_contains_split(subgroup_checks(m, i, subs, n - 1), subgroup_issue(m, i, n - 1, subs[n - 1].id), x);
        if subgroup_issue(m, i, n - 1, subs[n - 1].id).contains(x) {
            n - 1
        } else {
            lemma_subgroup_checks_origin(m, i, subs, n - 1, x)
        }
    }
}

proof fn lemma_atlas_checks_origin(i: int, s: SimpleGroupView, n: int, x: IssueView) -> (j: int)
    requires
        atlas_checks(i, s, n).contains(x),
    ensures
        0 <= j < n,
        atlas_issue(i, s, j).contains(x),
    decreases n,
{
    if n <= 0 {
        assert(false);
        0
    } else {
        lemma_contains_split(atlas_checks(i, s, n - 1), atlas_issue(i, s, n - 1), x);
        if atlas_issue(i, s, n - 1).contains(x) {
            n - 1
        } else {
            lemma_atlas_checks_origin(i, s, n - 1, x)
        }
    }
}

/// Group `i` names the group `q` as its parent, and `path` is where that is
/// reported.
pub open spec fn parent_reference(m: ManifestView, i: int, path: Seq<char>, q: Seq<char>) -> bool {
    0 <= i < m.groups.len() && m.groups[i].parent() == Some(q) && path == group_path(i) + ".parent"@
}

/// Composite group `i` names the group `q` in one of its subgroup entries,
/// and `path` is where that entry is reported.
pub open spec fn subgroup_reference(m: ManifestView, i: int, path: Seq<char>, q: Seq<char>) -> bool {
    0 <= i < m.groups.len() && m.groups[i] is Composite && exists|t: int|
        0 <= t < m.groups[i]->Composite_0.subgroups.len() && (#[trigger] m.groups[i]->Composite_0.subgroups[t]).id
            == q && path == subgroup_path(i, t)
}

/// Group `k` is the one that a lookup of `q` finds: the last with that ID.
pub open spec fn found_group(m: ManifestView, k: int, q: Seq<char>) -> bool {
    0 <= k < m.groups.len() && m.groups[k].id() == q && forall|t: int|
        k < t < m.groups.len() ==> (#[trigger] m.groups[t]).id() != q
}

/// Every reference error of the report has its cause: a parent or subgroup
/// entry that names no group, a parent that names a simple group or a
/// subgroup entry that names a composite one (the group a lookup finds), or
/// a resource parent that names no resource of its group or a resource that
/// is not an Image atlas.
pub proof fn reported_references_have_causes(m: ManifestView, canonical: bool, x: IssueView)
    requires
        validation_issues(m, canonical).contains(x),
        is_reference_code(x.code),
    ensures
        x.code == ValidationCode::MissingGroupReference ==> exists|i: int, q: Seq<char>|
            #![trigger parent_reference(m, i, x.path, q)]
            #![trigger subgroup_reference(m, i, x.path, q)]
            (parent_reference(m, i, x.path, q) || subgroup_reference(m, i, x.path, q))
                && forall|k: int| 0 <= k < m.groups.len() ==> (#[trigger] m.groups[k]).id() != q,
        x.code == ValidationCode::WrongGroupReferenceKind ==> exists|i: int, q: Seq<char>, k: int|
            #![trigger found_group(m, k, q), parent_reference(m, i, x.path, q)]
            #![trigger found_group(m, k, q), subgroup_reference(m, i, x.path, q)]
            found_group(m, k, q) && ((parent_reference(m, i, x.path, q) && m.groups[k] is Simple)
                || (subgroup_reference(m, i, x.path, q) && m.groups[k] is Composite)),
        x.code == ValidationCode::MissingAtlasReference ==> exists|i: int, j: int|
            #[trigger] is_resource_at(m, i, j) && x.path == resource_path(i, j) + ".parent"@
                && resource_at(m, i, j).parent is Some && forall|u: int|
                0 <= u < m.groups[i]->Simple_0.resources.len() ==> (#[trigger] m.groups[i]->Simple_0.resources[u]).id
                    != resource_at(m, i, j).parent->0,
        x.code == ValidationCode::InvalidAtlasReference ==> exists|i: int, j: int, k: int|
            #[trigger] is_resource_at(m, i, j) && #[trigger] is_resource_at(m, i, k) && x.path
                == resource_path(i, j) + ".parent"@ && resource_at(m, i, j).parent == Some(resource_at(m, i, k).id)
                && !(resource_at(m, i, k).resource_type == ResourceType::Image && resource_at(m, i, k).atlas)
                && forall|u: int|
                k < u < m.groups[i]->Simple_0.resources.len() ==> (#[trigger] m.groups[i]->Simple_0.resources[u]).id
                    != resource_at(m, i, k).id,
{
    let n = m.groups.len() as int;
    let reg = registration_pass(m, n, canonical);
    let refs = reference_pass(m, n);
    let slot = slot_table_issue(m, canonical);
    lemma_contains_split(reg + refs, slot, x);
    if slot.contains(x) {
        let k = choose|k: int| 0 <= k < slot.len() && slot[k] == x;
        assert(false);
    }
    lemma_contains_split(reg, refs, x);
    if reg.contains(x) {
        let i = lemma_pass_origin(m, n, canonical, x);
        let d = duplicate_group_issue(m, i);
        let rest = match m.groups[i] {
            GroupView::Simple(s) => registrations(m, i, s, s.resources.len() as int, canonical),
            GroupView::Composite(_) => Seq::empty(),
        };
        lemma_contains_split(d, rest, x);
        if d.contains(x) {
            let k = choose|k: int| 0 <= k < d.len() && d[k] == x;
            assert(false);
        }
        if m.groups[i] is Composite {
            assert(rest.len() == 0);
            assert(false);
        }
        let s = m.groups[i]->Simple_0;
        let j = lemma_registrations_origin(m, i, s, s.resources.len() as int, canonical, x);
        lemma_registration_cause(m, i, j, canonical, x);
        assert(false);
    }
    let i = lemma_reference_pass_origin(m, n, x);
    let pi = parent_issue(m, i);
    let rest = match m.groups[i] {
        GroupView::Composite(c) => subgroup_checks(m, i, c.subgroups, c.subgroups.len() as int),
        GroupView::Simple(s) => atlas_checks(i, s, s.resources.len() as int),
    };
    lemma_contains_split(pi, rest, x);
    if pi.contains(x) {
        lemma_singleton_origin(pi, x);
        let q = m.groups[i].parent()->0;
        lemma_group_lookup(m.groups, n, q);
        assert(parent_reference(m, i, x.path, q));
        if let Some(k) = last_group_with_id(m.groups, n, q) {
            assert(found_group(m, k, q));
            assert(subgroup_reference(m, i, x.path, q) || !subgroup_reference(m, i, x.path, q));
        } else {
            assert(subgroup_reference(m, i, x.path, q) || !subgroup_reference(m, i, x.path, q));
        }
    } else {
        match m.groups[i] {
            GroupView::Composite(c) => {
                let t = lemma_subgroup_checks_origin(m, i, c.subgroups, c.subgroups.len() as int, x);
                let q = c.subgroups[t].id;
                let d = subgroup_issue(m, i, t, q);
                lemma_singleton_origin(d, x);
                lemma_group_lookup(m.groups, n, q);
                assert(m.groups[i]->Composite_0.subgroups[t].id == q);
                assert(subgroup_reference(m, i, x.path, q));
                assert(parent_reference(m, i, x.path, q) || !parent_reference(m, i, x.path, q));
                if let Some(k) = last_group_with_id(m.groups, n, q) {
                    assert(found_group(m, k, q));
                }
            },
            GroupView::Simple(s) => {
                let j = lemma_atlas_checks_origin(i, s, s.resources.len() as int, x);
                let d = atlas_issue(i, s, j);
                lemma_singleton_origin(d, x);
                let p = s.resources[j].parent->0;
                lemma_resource_lookup(s.resources, s.resources.len() as int, p);
                assert(is_resource_at(m, i, j));
                if let Some(k) = last_resource_with_id(s.resources, s.resources.len() as int, p) {
                    assert(is_resource_at(m, i, k));
                }
            },
        }
    }
}

// ----- group IDs and the slot table -----

/// Where in the report an issue lies: in the registration pass, in the
/// reference pass, or in the slot table check.
proof fn lemma_report_parts(m: ManifestView, canonical: bool, x: IssueView)
    requires
        validation_issues(m, canonical).contains(x),
    ensures
        registration_pass(m, m.groups.len() as int, canonical).contains(x) || reference_pass(
            m,
            m.groups.len() as int,
        ).contains(x) || slot_table_issue(m, canonical).contains(x),
{
    let n = m.groups.len() as int;
    lemma_contains_split(registration_pass(m, n, canonical) + reference_pass(m, n), slot_table_issue(m, canonical), x);
    if !slot_table_issue(m, canonical).contains(x) {
        lemma_contains_split(registration_pass(m, n, canonical), reference_pass(m, n), x);
    }
}

/// An issue of the registration pass that no resource registration raised
/// is a duplicate group ID of some group.
proof fn lemma_group_issue_origin(m: ManifestView, canonical: bool, x: IssueView) -> (k: int)
    requires
        registration_pass(m, m.groups.len() as int, canonical).contains(x),
        x.code == ValidationCode::DuplicateGroupId || x.code == ValidationCode::IncompleteSlotTable,
    ensures
        0 <= k < m.groups.len(),
        duplicate_group_issue(m, k).contains(x),
{
    let k = lemma_pass_origin(m, m.groups.len() as int, canonical, x);
    let d = duplicate_group_issue(m, k);
    let rest = match m.groups[k] {
        GroupView::Simple(s) => registrations(m, k, s, s.resources.len() as int, canonical),
        GroupView::Composite(_) => Seq::empty(),
    };
    lemma_contains_split(d, rest, x);
    if !d.contains(x) {
        if m.groups[k] is Composite {
            assert(rest.len() == 0);
            assert(false);
        }
        let s = m.groups[k]->Simple_0;
        let j = lemma_registrations_origin(m, k, s, s.resources.len() as int, canonical, x);
        lemma_registration_cause(m, k, j, canonical, x);
    }
    k
}

/// A duplicate group ID is reported only at a group whose ID an earlier group
/// already used.
pub proof fn reported_duplicate_groups_have_causes(m: ManifestView, canonical: bool, x: IssueView)
    requires
        validation_issues(m, canonical).contains(x),
        x.code == ValidationCode::DuplicateGroupId,
    ensures
        exists|i: int, k: int|
            0 <= i < k < m.groups.len() && (#[trigger] m.groups[i]).id() == (#[trigger] m.groups[k]).id()
                && x.path == group_path(k) + ".id"@,
{
    let n = m.groups.len() as int;
    lemma_report_parts(m, canonical, x);
    if reference_pass(m, n).contains(x) {
        lemma_reference_pass_codes(m, n);
        let t = choose|t: int| 0 <= t < reference_pass(m, n).len() && reference_pass(m, n)[t] == x;
        assert(is_reference_code(reference_pass(m, n)[t].code));
        assert(false);
    }
    if slot_table_issue(m, canonical).contains(x) {
        lemma_singleton_origin(slot_table_issue(m, canonical), x);
        assert(false);
    }
    let k = lemma_group_issue_origin(m, canonical, x);
    let d = duplicate_group_issue(m, k);
    lemma_singleton_origin(d, x);
    lemma_group_lookup(m.groups, k, m.groups[k].id());
    let i = last_group_with_id(m.groups, k, m.groups[k].id())->Some_0;
    assert(m.groups[i].id() == m.groups[k].id());
}

/// The slots that the resources of the document use.
pub open spec fn used_slots(m: ManifestView) -> Set<u32> {
    Set::new(|v: u32| exists|i: int, j: int| #[trigger] is_resource_at(m, i, j) && resource_at(m, i, j).slot == v)
}

proof fn lemma_used_slots(m: ManifestView)
    ensures
        entries_before(m.groups, m.groups.len() as int).map_values(|e: EntryView| e.slot).to_set() == used_slots(m),
{
    let n = m.groups.len() as int;
    let es = entries_before(m.groups, n);
    let slots = es.map_values(|e: EntryView| e.slot);
    assert forall|v: u32| slots.to_set().contains(v) <==> used_slots(m).contains(v) by {
        if slots.to_set().contains(v) {
            assert(slots.contains(v));
            let t = choose|t: int| 0 <= t < slots.len() && slots[t] == v;
            let w = lemma_entry_origin(m.groups, n, t);
            assert(es[t] == group_entries(m.groups[w.0], w.0)[w.1]);
            assert(is_resource_at(m, w.0, w.1) && resource_at(m, w.0, w.1).slot == v);
        }
        if used_slots(m).contains(v) {
            let (i, j) = choose|i: int, j: int| #[trigger] is_resource_at(m, i, j) && resource_at(m, i, j).slot == v;
            lemma_entry_before(m.groups, n, i, j);
            let t = choose|t: int| 0 <= t < es.len() && es[t] == group_entries(m.groups[i], i)[j];
            assert(slots[t] == v);
            assert(slots.contains(v));
        }
    }
    assert(slots.to_set() =~= used_slots(m));
}

/// The canonical profile reports, at the slot count, a slot count that is
/// not the number of different slots the resources use; the runtime profile
/// never does, and no other issue has that code.
pub proof fn slot_table_is_checked_when_canonical(m: ManifestView, canonical: bool)
    ensures
        (canonical && used_slots(m).len() != m.slot_count) ==> reports(
            validation_issues(m, canonical),
            ValidationSeverity::Error,
            ValidationCode::IncompleteSlotTable,
            "slot_count"@,
        ),
        forall|x: IssueView|
            validation_issues(m, canonical).contains(x) && x.code == ValidationCode::IncompleteSlotTable
                ==> canonical && used_slots(m).len() != m.slot_count && x.path == "slot_count"@,
{
    let n = m.groups.len() as int;
    lemma_used_slots(m);
    let st = slot_table_issue(m, canonical);
    if canonical && used_slots(m).len() != m.slot_count {
        let x = st[0];
        assert(st.contains(x));
        lemma_contains_right(registration_pass(m, n, canonical) + reference_pass(m, n), st, x);
        let issues = validation_issues(m, canonical);
        let k = choose|k: int| 0 <= k < issues.len() && issues[k] == x;
        assert(issues[k] == x);
    }
    assert forall|x: IssueView|
        validation_issues(m, canonical).contains(x) && x.code == ValidationCode::IncompleteSlotTable implies canonical
        && used_slots(m).len() != m.slot_count && x.path == "slot_count"@ by {
        lemma_report_parts(m, canonical, x);
        if reference_pass(m, n).contains(x) {
            lemma_reference_pass_codes(m, n);
            let t = choose|t: int| 0 <= t < reference_pass(m, n).len() && reference_pass(m, n)[t] == x;
            assert(is_reference_code(reference_pass(m, n)[t].code));
            assert(false);
        }
        if registration_pass(m, n, canonical).contains(x) {
            let k = lemma_group_issue_origin(m, canonical, x);
            lemma_singleton_origin(duplicate_group_issue(m, k), x);
            assert(false);
        }
        lemma_singleton_origin(st, x);
    }
}

} // verus!
