//! The NEWTON decoder, stated as a parser over the input bytes.
use crate::binary::format::i32_from_le;
use crate::error::ErrorView;
use crate::raw::{RawGroupView, RawManifestView, RawResourceView, RawSubgroupView};
use crate::text::decimal;
use vstd::prelude::*;

verus! {

/// Allocation and work limits used while decoding untrusted NEWTON data.
#[derive(Debug, Clone, Copy, PartialEq, Eq)]
pub struct DecodeLimits {
    pub max_groups: usize,
    pub max_subgroups_per_group: usize,
    pub max_resources_per_group: usize,
    pub max_total_entries: usize,
    pub max_string_bytes: usize,
    pub max_total_string_bytes: usize,
    pub max_allocation_bytes: usize,
}

/// How a decode charges its allocation budget: the size of each record that
/// it reserves, and whether string bytes are copied (and so charged).
#[derive(Clone, Copy)]
pub struct DecodeMode {
    pub group_record_size: usize,
    pub subgroup_record_size: usize,
    pub resource_record_size: usize,
    pub charge_strings: bool,
}

/// The record a decoder is reading, for error locations.
#[derive(Debug, Clone, Copy)]
pub enum DecodeEntry {
    Document,
    Group(usize),
    Subgroup { group: usize, subgroup: usize },
    Resource { group: usize, resource: usize },
}

/// The text that names a record location.
pub open spec fn entry_text(e: DecodeEntry) -> Seq<char> {
    match e {
        DecodeEntry::Document => "document"@,
        DecodeEntry::Group(g) => "group["@ + decimal(g as nat) + "]"@,
        DecodeEntry::Subgroup { group, subgroup } => "group["@ + decimal(group as nat)
            + "].subgroup["@ + decimal(subgroup as nat) + "]"@,
        DecodeEntry::Resource { group, resource } => "group["@ + decimal(group as nat)
            + "].resource["@ + decimal(resource as nat) + "]"@,
    }
}

/// Decoder state: input position, budgets spent so far, and the field being
/// read with its record and byte offset.
pub struct DecState {
    pub pos: int,
    pub entries: int,
    pub strings: int,
    pub alloc: int,
    pub entry: DecodeEntry,
    pub field: Seq<char>,
    pub offset: int,
}

pub type Parse<T> = Result<(T, DecState), (ErrorView, DecState)>;

/// The state before the first byte.
pub open spec fn initial_state() -> DecState {
    DecState {
        pos: 0,
        entries: 0,
        strings: 0,
        alloc: 0,
        entry: DecodeEntry::Document,
        field: "header"@,
        offset: 0,
    }
}

/// Start reading a field at the current position.
pub open spec fn mark(st: DecState, field: Seq<char>) -> DecState {
    DecState { field, offset: st.pos, ..st }
}

/// Start reading a record.
pub open spec fn set_context(st: DecState, entry: DecodeEntry, field: Seq<char>) -> DecState {
    DecState { entry, ..mark(st, field) }
}

/// Wrap an error with the location it was met at.
pub open spec fn contextualize(st: DecState, e: ErrorView) -> ErrorView {
    ErrorView::DecodeContext {
        offset: st.offset as u64,
        context: entry_text(st.entry),
        field: st.field,
        source: Box::new(e),
    }
}

pub open spec fn take(bytes: Seq<u8>, st: DecState, len: int) -> Parse<Seq<u8>> {
    if st.pos + len <= bytes.len() {
        Ok((bytes.subrange(st.pos, st.pos + len), DecState { pos: st.pos + len, ..st }))
    } else {
        Err((ErrorView::Io, st))
    }
}

pub open spec fn read_u8(bytes: Seq<u8>, st: DecState, field: Seq<char>) -> Parse<u8> {
    match take(bytes, mark(st, field), 1) {
        Ok((b, s)) => Ok((b[0], s)),
        Err(x) => Err(x),
    }
}

pub open spec fn read_i32(bytes: Seq<u8>, st: DecState, field: Seq<char>) -> Parse<i32> {
    match take(bytes, mark(st, field), 4) {
        Ok((b, s)) => Ok((i32_from_le(b[0], b[1], b[2], b[3]), s)),
        Err(x) => Err(x),
    }
}

pub open spec fn read_count(bytes: Seq<u8>, st: DecState, field: Seq<char>, limit: usize) -> Parse<
    int,
> {
    match read_i32(bytes, st, field) {
        Ok((v, s)) => if v < 0 {
            Err((ErrorView::NegativeValue { field, value: v }, s))
        } else if v > limit {
            Err((ErrorView::CountLimitExceeded { field, count: v as usize, limit }, s))
        } else {
            Ok((v as int, s))
        },
        Err(x) => Err(x),
    }
}

pub open spec fn charge_entries(st: DecState, count: int, limits: DecodeLimits) -> Result<
    DecState,
    (ErrorView, DecState),
> {
    let total = st.entries + count;
    if total > usize::MAX {
        Err((ErrorView::LengthOverflow { field: "total entry"@ }, st))
    } else if total > limits.max_total_entries {
        Err(
            (
                ErrorView::CountLimitExceeded {
                    field: "total entry"@,
                    count: total as usize,
                    limit: limits.max_total_entries,
                },
                st,
            ),
        )
    } else {
        Ok(DecState { entries: total, ..st })
    }
}

pub open spec fn charge_allocation(st: DecState, bytes: int, limits: DecodeLimits) -> Result<
    DecState,
    (ErrorView, DecState),
> {
    let total = st.alloc + bytes;
    if total > usize::MAX {
        Err((ErrorView::LengthOverflow { field: "estimated allocation bytes"@ }, st))
    } else if total > limits.max_allocation_bytes {
        Err(
            (
                ErrorView::AllocationLimitExceeded {
                    requested: total as usize,
                    limit: limits.max_allocation_bytes,
                },
                st,
            ),
        )
    } else {
        Ok(DecState { alloc: total, ..st })
    }
}

/// Charge the estimated size of `count` records before reserving them.
pub open spec fn allocate(
    st: DecState,
    count: int,
    record_size: usize,
    field: Seq<char>,
    limits: DecodeLimits,
) -> Result<DecState, (ErrorView, DecState)> {
    if record_size * count > usize::MAX {
        Err((ErrorView::LengthOverflow { field }, st))
    } else {
        charge_allocation(st, record_size * count, limits)
    }
}

pub open spec fn string_cost(mode: DecodeMode, len: int) -> int {
    if mode.charge_strings {
        len
    } else {
        0
    }
}

pub open spec fn read_string(
    bytes: Seq<u8>,
    st: DecState,
    field: Seq<char>,
    limits: DecodeLimits,
    mode: DecodeMode,
) -> Parse<Seq<u8>> {
    match read_i32(bytes, st, field) {
        Err(x) => Err(x),
        Ok((v, s)) => if v < 0 {
            Err((ErrorView::NegativeValue { field, value: v }, s))
        } else if v > limits.max_string_bytes {
            Err(
                (
                    ErrorView::StringLimitExceeded {
                        length: v as usize,
                        limit: limits.max_string_bytes,
                    },
                    s,
                ),
            )
        } else if s.strings + v > usize::MAX {
            Err((ErrorView::LengthOverflow { field: "cumulative string bytes"@ }, s))
        } else if s.strings + v > limits.max_total_string_bytes {
            Err(
                (
                    ErrorView::TotalStringLimitExceeded {
                        requested: (s.strings + v) as usize,
                        limit: limits.max_total_string_bytes,
                    },
                    s,
                ),
            )
        } else {
            let s2 = DecState { strings: s.strings + v, ..s };
            match charge_allocation(s2, string_cost(mode, v as int), limits) {
                Err(x) => Err(x),
                Ok(s3) => take(bytes, mark(s3, field), v as int),
            }
        },
    }
}

/// A string tail is read only when its flag byte is exactly `1`.
pub open spec fn read_opt_string(
    bytes: Seq<u8>,
    st: DecState,
    flag: u8,
    field: Seq<char>,
    limits: DecodeLimits,
    mode: DecodeMode,
) -> Parse<Option<Seq<u8>>> {
    if flag == 1 {
        match read_string(bytes, st, field, limits, mode) {
            Ok((s, st2)) => Ok((Some(s), st2)),
            Err(x) => Err(x),
        }
    } else {
        Ok((None, st))
    }
}

pub open spec fn read_subgroup(
    bytes: Seq<u8>,
    st: DecState,
    limits: DecodeLimits,
    mode: DecodeMode,
) -> Parse<RawSubgroupView> {
    match read_i32(bytes, st, "subgroup resolution"@) {
        Err(x) => Err(x),
        Ok((resolution, st)) => match read_string(bytes, st, "subgroup id"@, limits, mode) {
            Err(x) => Err(x),
            Ok((id, st)) => Ok((RawSubgroupView { resolution, id }, st)),
        },
    }
}

pub open spec fn subgroups_loop(
    bytes: Seq<u8>,
    st: DecState,
    group: int,
    j: int,
    n: int,
    acc: Seq<RawSubgroupView>,
    limits: DecodeLimits,
    mode: DecodeMode,
) -> Parse<Seq<RawSubgroupView>>
    decreases n - j,
{
    if j >= n {
        Ok((acc, st))
    } else {
        let st = set_context(
            st,
            DecodeEntry::Subgroup { group: group as usize, subgroup: j as usize },
            "subgroup resolution"@,
        );
        match read_subgroup(bytes, st, limits, mode) {
            Err(x) => Err(x),
            Ok((s, st)) => subgroups_loop(bytes, st, group, j + 1, n, acc.push(s), limits, mode),
        }
    }
}

pub open spec fn read_resource(
    bytes: Seq<u8>,
    st: DecState,
    limits: DecodeLimits,
    mode: DecodeMode,
) -> Parse<RawResourceView> {
    match read_u8(bytes, st, "resource type"@) {
        Err(x) => Err(x),
        Ok((resource_type, st)) =>
        match read_i32(bytes, st, "resource slot"@) {
            Err(x) => Err(x),
            Ok((slot, st)) =>
            match read_i32(bytes, st, "resource width"@) {
                Err(x) => Err(x),
                Ok((width, st)) =>
                match read_i32(bytes, st, "resource height"@) {
                    Err(x) => Err(x),
                    Ok((height, st)) =>
                    match read_i32(bytes, st, "resource x"@) {
                        Err(x) => Err(x),
                        Ok((x, st)) =>
                        match read_i32(bytes, st, "resource y"@) {
                            Err(x) => Err(x),
                            Ok((y, st)) =>
                            match read_i32(bytes, st, "resource atlas x"@) {
                                Err(x) => Err(x),
                                Ok((ax, st)) =>
                                match read_i32(bytes, st, "resource atlas y"@) {
                                    Err(x) => Err(x),
                                    Ok((ay, st)) =>
                                    match read_i32(bytes, st, "resource atlas width"@) {
                                        Err(x) => Err(x),
                                        Ok((aw, st)) =>
                                        match read_i32(bytes, st, "resource atlas height"@) {
                                            Err(x) => Err(x),
                                            Ok((ah, st)) =>
                                            match read_i32(bytes, st, "resource columns"@) {
                                                Err(x) => Err(x),
                                                Ok((cols, st)) =>
                                                match read_i32(bytes, st, "resource rows"@) {
                                                    Err(x) => Err(x),
                                                    Ok((rows, st)) =>
                                                    match read_u8(bytes, st, "resource atlas flag"@) {
                                                        Err(x) => Err(x),
                                                        Ok((atlas, st)) =>
                                                        match read_u8(bytes, st, "resource id flag"@) {
                                                            Err(x) => Err(x),
                                                            Ok((has_id, st)) =>
                                                            match read_u8(bytes, st, "resource path flag"@) {
                                                                Err(x) => Err(x),
                                                                Ok((has_path, st)) =>
                                                                match read_u8(bytes, st, "resource parent flag"@) {
                                                                    Err(x) => Err(x),
                                                                    Ok((has_parent, st)) =>
                                                                    match read_opt_string(bytes, st, has_id, "resource id"@, limits, mode) {
                                                                        Err(x) => Err(x),
                                                                        Ok((id, st)) =>
                                                                        match read_opt_string(bytes, st, has_path, "resource path"@, limits, mode) {
                                                                            Err(x) => Err(x),
                                                                            Ok((path, st)) =>
                                                                            match read_opt_string(bytes, st, has_parent, "resource parent"@, limits, mode) {
                                                                                Err(x) => Err(x),
                                                                                Ok((parent, st)) =>
                                                                                Ok((RawResourceView { resource_type: resource_type, slot: slot, width: width, height: height, x: x, y: y, ax: ax, ay: ay, aw: aw, ah: ah, cols: cols, rows: rows, atlas: atlas, has_id: has_id, has_path: has_path, has_parent: has_parent, id: id, path: path, parent: parent }, st)),
                                                                            },
                                                                        },
                                                                    },
                                                                },
                                                            },
                                                        },
                                                    },
                                                },
                                            },
                                        },
                                    },
                                },
                            },
                        },
                    },
                },
            },
        },
    }
}

pub open spec fn resources_loop(
    bytes: Seq<u8>,
    st: DecState,
    group: int,
    k: int,
    n: int,
    acc: Seq<RawResourceView>,
    limits: DecodeLimits,
    mode: DecodeMode,
) -> Parse<Seq<RawResourceView>>
    decreases n - k,
{
    if k >= n {
        Ok((acc, st))
    } else {
        let st = set_context(
            st,
            DecodeEntry::Resource { group: group as usize, resource: k as usize },
            "resource type"@,
        );
        match read_resource(bytes, st, limits, mode) {
            Err(x) => Err(x),
            Ok((r, st)) => resources_loop(bytes, st, group, k + 1, n, acc.push(r), limits, mode),
        }
    }
}

/// The fixed fields and strings of a group record, before its children.
pub struct GroupHead {
    pub group_type: u8,
    pub resolution: i32,
    pub subgroup_count: int,
    pub resource_count: int,
    pub has_id: u8,
    pub has_parent: u8,
    pub id: Option<Seq<u8>>,
    pub parent: Option<Seq<u8>>,
}

pub open spec fn read_group_head(
    bytes: Seq<u8>,
    st: DecState,
    limits: DecodeLimits,
    mode: DecodeMode,
) -> Parse<GroupHead> {
    match read_u8(bytes, st, "group type"@) {
        Err(x) => Err(x),
        Ok((group_type, st)) => match read_i32(bytes, st, "group resolution"@) {
            Err(x) => Err(x),
            Ok((resolution, st)) => match read_count(
                bytes,
                st,
                "subgroup count"@,
                limits.max_subgroups_per_group,
            ) {
                Err(x) => Err(x),
                Ok((sc, st)) => match read_count(
                    bytes,
                    st,
                    "resource count"@,
                    limits.max_resources_per_group,
                ) {
                    Err(x) => Err(x),
                    Ok((rc, st)) => match charge_entries(st, sc, limits) {
                        Err(x) => Err(x),
                        Ok(st) => match charge_entries(st, rc, limits) {
                            Err(x) => Err(x),
                            Ok(st) => match read_u8(bytes, st, "group id flag"@) {
                                Err(x) => Err(x),
                                Ok((has_id, st)) => match read_u8(bytes, st, "group parent flag"@) {
                                    Err(x) => Err(x),
                                    Ok((has_parent, st)) => match read_opt_string(
                                        bytes,
                                        st,
                                        has_id,
                                        "group id"@,
                                        limits,
                                        mode,
                                    ) {
                                        Err(x) => Err(x),
                                        Ok((id, st)) => match read_opt_string(
                                            bytes,
                                            st,
                                            has_parent,
                                            "group parent"@,
                                            limits,
                                            mode,
                                        ) {
                                            Err(x) => Err(x),
                                            Ok((parent, st)) => Ok(
                                                (
                                                    GroupHead {
                                                        group_type,
                                                        resolution,
                                                        subgroup_count: sc,
                                                        resource_count: rc,
                                                        has_id,
                                                        has_parent,
                                                        id,
                                                        parent,
                                                    },
                                                    st,
                                                ),
                                            ),
                                        },
                                    },
                                },
                            },
                        },
                    },
                },
            },
        },
    }
}

pub open spec fn read_group(
    bytes: Seq<u8>,
    st: DecState,
    group: int,
    limits: DecodeLimits,
    mode: DecodeMode,
) -> Parse<RawGroupView> {
    match read_group_head(bytes, st, limits, mode) {
        Err(x) => Err(x),
        Ok((h, st)) => match allocate(
            st,
            h.subgroup_count,
            mode.subgroup_record_size,
            "subgroup records"@,
            limits,
        ) {
            Err(x) => Err(x),
            Ok(st) => match subgroups_loop(
                bytes,
                st,
                group,
                0,
                h.subgroup_count,
                Seq::empty(),
                limits,
                mode,
            ) {
                Err(x) => Err(x),
                Ok((subgroups, st)) => match allocate(
                    st,
                    h.resource_count,
                    mode.resource_record_size,
                    "resource records"@,
                    limits,
                ) {
                    Err(x) => Err(x),
                    Ok(st) => match resources_loop(
                        bytes,
                        st,
                        group,
                        0,
                        h.resource_count,
                        Seq::empty(),
                        limits,
                        mode,
                    ) {
                        Err(x) => Err(x),
                        Ok((resources, st)) => Ok(
                            (
                                RawGroupView {
                                    group_type: h.group_type,
                                    resolution: h.resolution,
                                    has_id: h.has_id,
                                    has_parent: h.has_parent,
                                    id: h.id,
                                    parent: h.parent,
                                    subgroups,
                                    resources,
                                },
                                st,
                            ),
                        ),
                    },
                },
            },
        },
    }
}

pub open spec fn groups_loop(
    bytes: Seq<u8>,
    st: DecState,
    i: int,
    n: int,
    acc: Seq<RawGroupView>,
    limits: DecodeLimits,
    mode: DecodeMode,
) -> Parse<Seq<RawGroupView>>
    decreases n - i,
{
    if i >= n {
        Ok((acc, st))
    } else {
        let st = set_context(st, DecodeEntry::Group(i as usize), "group type"@);
        match read_group(bytes, st, i, limits, mode) {
            Err(x) => Err(x),
            Ok((g, st)) => groups_loop(bytes, st, i + 1, n, acc.push(g), limits, mode),
        }
    }
}

/// Decode one document from the start of `bytes`; trailing bytes are left
/// unread.
pub open spec fn decode_document(bytes: Seq<u8>, limits: DecodeLimits, mode: DecodeMode) -> Parse<
    RawManifestView,
> {
    let st = set_context(initial_state(), DecodeEntry::Document, "slot count"@);
    match read_i32(bytes, st, "slot count"@) {
        Err(x) => Err(x),
        Ok((slot_count, st)) => match read_count(bytes, st, "group count"@, limits.max_groups) {
            Err(x) => Err(x),
            Ok((n, st)) => match charge_entries(st, n, limits) {
                Err(x) => Err(x),
                Ok(st) => match allocate(st, n, mode.group_record_size, "group records"@, limits) {
                    Err(x) => Err(x),
                    Ok(st) => match groups_loop(bytes, st, 0, n, Seq::empty(), limits, mode) {
                        Err(x) => Err(x),
                        Ok((groups, st)) => Ok((RawManifestView { slot_count, groups }, st)),
                    },
                },
            },
        },
    }
}

/// Whether decoding gets as far as reserving the records of at least one
/// group. This is the first reservation that a decode makes, and every other
/// one comes after it, so a decode that does not get this far asks the
/// allocator for nothing.
pub open spec fn reaches_group_records(bytes: Seq<u8>, limits: DecodeLimits, mode: DecodeMode) -> bool {
    let st = set_context(initial_state(), DecodeEntry::Document, "slot count"@);
    match read_i32(bytes, st, "slot count"@) {
        Err(_) => false,
        Ok((_, st)) => match read_count(bytes, st, "group count"@, limits.max_groups) {
            Err(_) => false,
            Ok((n, st)) => n > 0 && match charge_entries(st, n, limits) {
                Err(_) => false,
                Ok(st) => allocate(st, n, mode.group_record_size, "group records"@, limits) is Ok,
            },
        },
    }
}

/// Decode a document that must fill `bytes` exactly, with every error
/// located.
pub open spec fn decode_complete(bytes: Seq<u8>, limits: DecodeLimits, mode: DecodeMode) -> Result<
    RawManifestView,
    ErrorView,
> {
    match decode_document(bytes, limits, mode) {
        Err((e, st)) => Err(contextualize(st, e)),
        Ok((m, st)) => if st.pos == bytes.len() {
            Ok(m)
        } else {
            Err(
                contextualize(
                    set_context(st, DecodeEntry::Document, "trailing bytes"@),
                    ErrorView::TrailingData { remaining: (bytes.len() - st.pos) as usize },
                ),
            )
        },
    }
}

/// Decode a document from the start of `bytes`, with every error located;
/// on success also the number of bytes it took.
pub open spec fn decode_prefix(bytes: Seq<u8>, limits: DecodeLimits, mode: DecodeMode) -> Result<
    (RawManifestView, int),
    ErrorView,
> {
    match decode_document(bytes, limits, mode) {
        Err((e, st)) => Err(contextualize(st, e)),
        Ok((m, st)) => Ok((m, st.pos)),
    }
}

} // verus!
