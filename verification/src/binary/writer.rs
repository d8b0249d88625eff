use crate::binary::format::{
    add_len, add_part, check, lemma_len_err_sticky, lemma_raw_groups_prefix_err,
    lemma_raw_resources_prefix_err, lemma_raw_subgroups_prefix_err, le_i32, opt_str_ok, opt_str_wire,
    opt_string_len, raw_document_len, raw_group_head_len, raw_group_len, raw_groups_len,
    raw_resource_len, raw_resources_len, raw_subgroups_len, str_wire, string_len,
    lemma_raw_document_len, raw_document_ok, raw_document_wire, raw_group_ok, raw_group_wire,
    raw_group_head_wire, raw_resource_ok, raw_resource_wire, raw_resource_fixed, raw_subgroup_wire,
    raw_subgroups_wire, raw_resources_wire, raw_groups_wire,
    DOCUMENT_HEADER_SIZE, GROUP_FIXED_SIZE, I32_MAX, RESOURCE_FIXED_SIZE, SUBGROUP_FIXED_SIZE,
};
use crate::binary::canonical::{
    check_integer, check_opt_integer, coordinate_or_default, document_len, document_ok,
    document_wire, flag, group_head_len, group_len, group_ok, group_to_raw, groups_len,
    groups_to_raw, lemma_document_len, lemma_groups_prefix_err, lemma_len_err_sticky as
    lemma_semantic_err_sticky, lemma_resources_prefix_err, lemma_subgroups_prefix_err, number_ok,
    opt_text_bytes, opt_text_ok, or_one, or_zero, resource_len, resource_numbers_check,
    resource_ok, resource_to_raw, resources_len, resources_to_raw, subgroup_len, subgroup_ok,
    subgroup_to_raw, subgroups_len, subgroups_to_raw, text_len, text_ok, ABSENT_COORDINATE,
};
use crate::error::{ErrorView, NewtonError};
use crate::types::{
    type_byte, CompositeGroup, Resource, ResourceGroup, ResourceManifest, SimpleGroup, Subgroup,
};
use vstd::utf8::encode_utf8;
use crate::raw::{opt_bytes, RawResource, RawResourceGroup, RawResourceManifest, WireBytes};
use byteorder::{LittleEndian, WriteBytesExt};
use vstd::prelude::*;

verus! {

/// The outcome of a length computation agrees with its specification.
pub open spec fn len_matches(r: Result<usize, NewtonError>, s: Result<nat, ErrorView>) -> bool {
    match s {
        Ok(n) => r matches Ok(x) && x == n,
        Err(e) => r matches Err(x) && x@ == e,
    }
}

// ----- primitive writers -----

/// `byteorder::WriteBytesExt::write_i32::<LittleEndian>` on a byte vector:
/// appends the four little-endian bytes of `value`. A `Vec<u8>` writer appends
/// and never fails, so the `io::Result` carries nothing.
#[verifier::external_body]
fn put_i32(out: &mut Vec<u8>, value: i32)
    ensures
        final(out)@ == old(out)@ + le_i32(value),
{
    let _ = out.write_i32::<LittleEndian>(value);
}

/// `byteorder::WriteBytesExt::write_u8` on a byte vector: appends `value`.
/// A `Vec<u8>` writer appends and never fails.
#[verifier::external_body]
fn put_u8(out: &mut Vec<u8>, value: u8)
    ensures
        final(out)@ == old(out)@.push(value),
{
    let _ = out.write_u8(value);
}

/// Append a byte string.
fn put_bytes(out: &mut Vec<u8>, bytes: &[u8])
    ensures
        final(out)@ == old(out)@ + bytes@,
{
    let mut i: usize = 0;
    while i < bytes.len()
        invariant
            i <= bytes@.len(),
            out@ == old(out)@ + bytes@.take(i as int),
        decreases bytes@.len() - i,
    {
        out.push(bytes[i]);
        i = i + 1;
        assert(bytes@.take(i as int) =~= bytes@.take(i - 1).push(bytes@[i - 1]));
    }
    assert(bytes@.take(i as int) =~= bytes@);
}

fn write_count(out: &mut Vec<u8>, value: usize)
    requires
        value <= I32_MAX,
    ensures
        final(out)@ == old(out)@ + le_i32(value as i32),
{
    put_i32(out, value as i32);
}

fn write_raw_string(out: &mut Vec<u8>, value: &[u8])
    requires
        value@.len() <= I32_MAX,
    ensures
        final(out)@ == old(out)@ + str_wire(value@),
{
    write_count(out, value.len());
    put_bytes(out, value);
    assert(old(out)@ + le_i32(value@.len() as i32) + value@ =~= old(out)@ + str_wire(value@));
}

/// Write a string tail when its flag byte is exactly `1`.
fn write_optional_raw_string<B: WireBytes>(out: &mut Vec<u8>, flag: u8, value: &Option<B>)
    requires
        opt_str_ok(flag, opt_bytes(*value)),
    ensures
        final(out)@ == old(out)@ + opt_str_wire(flag, opt_bytes(*value)),
{
    if flag == 1 {
        match value {
            Some(v) => write_raw_string(out, v.wire_bytes()),
            None => {},
        }
    } else {
        assert(old(out)@ + opt_str_wire(flag, opt_bytes(*value)) =~= old(out)@);
    }
}

// ----- raw length -----

fn count(field: &'static str, value: usize) -> (r: Result<i32, NewtonError>)
    ensures
        value <= I32_MAX ==> r == Ok::<i32, NewtonError>(value as i32),
        value > I32_MAX ==> (r matches Err(e) && e@ == (ErrorView::LengthOverflow { field: field@ })),
{
    if value <= I32_MAX {
        Ok(value as i32)
    } else {
        Err(NewtonError::LengthOverflow { field })
    }
}

fn checked_add(left: usize, right: usize, field: &'static str) -> (r: Result<usize, NewtonError>)
    ensures
        len_matches(r, add_len(Ok(left as nat), right as nat, field@)),
{
    match left.checked_add(right) {
        Some(sum) => Ok(sum),
        None => Err(NewtonError::LengthOverflow { field }),
    }
}

fn raw_string_size(value: &[u8]) -> (r: Result<usize, NewtonError>)
    ensures
        len_matches(r, string_len(value@)),
{
    if value.len() > I32_MAX {
        return Err(NewtonError::LengthOverflow { field: "string" });
    }
    checked_add(4, value.len(), "string")
}

fn optional_raw_string_size<B: WireBytes>(flag: u8, value: &Option<B>, field: &'static str) -> (r:
    Result<usize, NewtonError>)
    ensures
        len_matches(r, opt_string_len(flag, opt_bytes(*value), field@)),
{
    match value {
        Some(v) if flag == 1 => raw_string_size(v.wire_bytes()),
        None if flag != 1 => Ok(0),
        _ => Err(
            NewtonError::InconsistentPresence { field, flag, has_value: value.is_some() },
        ),
    }
}

/// Add a part whose length computation may itself have failed.
fn add_sized(size: usize, part: Result<usize, NewtonError>, field: &'static str) -> (r: Result<
    usize,
    NewtonError,
>)
    ensures
        forall|s: Result<nat, ErrorView>|
            len_matches(part, s) ==> len_matches(r, add_part(Ok(size as nat), s, field@)),
{
    match part {
        Ok(n) => checked_add(size, n, field),
        Err(e) => Err(e),
    }
}

fn raw_group_size<B: WireBytes>(group: &RawResourceGroup<B>, size: usize) -> (r: Result<
    usize,
    NewtonError,
>)
    ensures
        len_matches(r, raw_group_len(group@, Ok(size as nat))),
{
    let ghost g = group@;
    let ghost head = raw_group_head_len(g, Ok(size as nat));
    let ghost whole = raw_group_len(g, Ok(size as nat));
    let ghost size0 = size;
    proof {
        assert forall|e: ErrorView|
            raw_subgroups_len(g.subgroups, Err(e)) == Err::<nat, ErrorView>(e)
                && raw_resources_len(g.resources, Err(e)) == Err::<nat, ErrorView>(e) by {
            lemma_len_err_sticky(
                crate::raw::RawManifestView { slot_count: 0, groups: Seq::empty() },
                g,
                e,
            );
        }
    }
    count("subgroup", group.subgroups.len())?;
    count("resource", group.resources.len())?;
    let sz = checked_add(size, GROUP_FIXED_SIZE, "raw document")?;
    let sz = add_sized(
        sz,
        optional_raw_string_size(group.has_id, &group.id, "group id"),
        "raw document",
    )?;
    let sz = add_sized(
        sz,
        optional_raw_string_size(group.has_parent, &group.parent, "group parent"),
        "raw document",
    )?;
    assert(head == Ok::<nat, ErrorView>(sz as nat));
    let mut acc = sz;
    let mut i: usize = 0;
    while i < group.subgroups.len()
        invariant
            g == group@,
            i <= g.subgroups.len(),
            raw_subgroups_len(g.subgroups.take(i as int), head) == Ok::<nat, ErrorView>(
                acc as nat,
            ),
            forall|e: ErrorView| raw_resources_len(g.resources, Err(e)) == Err::<nat, ErrorView>(e),
            whole == raw_resources_len(g.resources, raw_subgroups_len(g.subgroups, head)),
            whole == raw_group_len(g, Ok(size0 as nat)),
            size0 == size,
        decreases g.subgroups.len() - i,
    {
        let subgroup = &group.subgroups[i];
        assert(g.subgroups[i as int] == subgroup@);
        assert(g.subgroups.take(i + 1).drop_last() =~= g.subgroups.take(i as int));
        assert(g.subgroups.take(i + 1).last() == g.subgroups[i as int]);
        let step = checked_add(acc, SUBGROUP_FIXED_SIZE, "raw document");
        let step = match step {
            Ok(s) => add_sized(s, raw_string_size(subgroup.id.wire_bytes()), "raw document"),
            Err(e) => Err(e),
        };
        match step {
            Ok(s) => {
                acc = s;
                i = i + 1;
            },
            Err(e) => {
                proof {
                    assert(g.subgroups[i as int] == subgroup@);
                    lemma_raw_subgroups_prefix_err(g.subgroups, i + 1, head);
                }
                return Err(e);
            },
        }
    }
    assert(g.subgroups.take(i as int) =~= g.subgroups);
    let ghost mid = raw_subgroups_len(g.subgroups, head);
    let mut j: usize = 0;
    while j < group.resources.len()
        invariant
            g == group@,
            j <= g.resources.len(),
            mid == raw_subgroups_len(g.subgroups, head),
            whole == raw_resources_len(g.resources, mid),
            whole == raw_group_len(g, Ok(size0 as nat)),
            size0 == size,
            raw_resources_len(g.resources.take(j as int), mid) == Ok::<nat, ErrorView>(
                acc as nat,
            ),
        decreases g.resources.len() - j,
    {
        let resource = &group.resources[j];
        assert(g.resources.take(j + 1).drop_last() =~= g.resources.take(j as int));
        assert(g.resources.take(j + 1).last() == g.resources[j as int]);
        assert(g.resources[j as int] == resource@);
        match raw_resource_size(resource, acc) {
            Ok(s) => {
                acc = s;
                j = j + 1;
            },
            Err(e) => {
                proof {
                    assert(g.resources[j as int] == resource@);
                    assert(raw_resources_len(g.resources.take(j + 1), mid) == Err::<nat, ErrorView>(e@));
                    lemma_raw_resources_prefix_err(g.resources, j + 1, mid);
                    assert(raw_resources_len(g.resources, mid) == Err::<nat, ErrorView>(e@));
                    assert(whole == Err::<nat, ErrorView>(e@));
                }
                return Err(e);
            },
        }
    }
    assert(g.resources.take(j as int) =~= g.resources);
    Ok(acc)
}

fn raw_resource_size<B: WireBytes>(resource: &RawResource<B>, size: usize) -> (r: Result<
    usize,
    NewtonError,
>)
    ensures
        len_matches(r, raw_resource_len(resource@, Ok(size as nat))),
{
    let size = checked_add(size, RESOURCE_FIXED_SIZE, "raw document")?;
    let size = add_sized(
        size,
        optional_raw_string_size(resource.has_id, &resource.id, "resource id"),
        "raw document",
    )?;
    let size = add_sized(
        size,
        optional_raw_string_size(resource.has_path, &resource.path, "resource path"),
        "raw document",
    )?;
    add_sized(
        size,
        optional_raw_string_size(resource.has_parent, &resource.parent, "resource parent"),
        "raw document",
    )
}

/// Compute the exact encoded length of a wire-faithful raw manifest.
pub fn raw_encoded_len<B: WireBytes>(manifest: &RawResourceManifest<B>) -> (r: Result<
    usize,
    NewtonError,
>)
    ensures
        len_matches(r, raw_document_len(manifest@)),
{
    let ghost m = manifest@;
    let ghost start = check(
        Ok(8),
        m.groups.len() <= I32_MAX,
        ErrorView::LengthOverflow { field: "group"@ },
    );
    proof {
        assert forall|e: ErrorView| raw_groups_len(m.groups, Err(e)) == Err::<nat, ErrorView>(e) by {
            lemma_len_err_sticky(m, arbitrary(), e);
        }
    }
    count("group", manifest.groups.len())?;
    let mut size: usize = DOCUMENT_HEADER_SIZE;
    let mut i: usize = 0;
    while i < manifest.groups.len()
        invariant
            m == manifest@,
            i <= m.groups.len(),
            start == Ok::<nat, ErrorView>(8),
            raw_document_len(m) == raw_groups_len(m.groups, start),
            raw_groups_len(m.groups.take(i as int), start) == Ok::<nat, ErrorView>(size as nat),
        decreases m.groups.len() - i,
    {
        assert(m.groups.take(i + 1).drop_last() =~= m.groups.take(i as int));
        assert(m.groups.take(i + 1).last() == m.groups[i as int]);
        assert(m.groups[i as int] == manifest.groups[i as int]@);
        match raw_group_size(&manifest.groups[i], size) {
            Ok(s) => {
                size = s;
                i = i + 1;
            },
            Err(e) => {
                proof {
                    lemma_raw_groups_prefix_err(m.groups, i + 1, start);
                }
                return Err(e);
            },
        }
    }
    assert(m.groups.take(i as int) =~= m.groups);
    Ok(size)
}


// ----- raw encoding -----

#[verifier::rlimit(40)]
fn write_raw_resource_fixed<B: WireBytes>(out: &mut Vec<u8>, resource: &RawResource<B>)
    ensures
        final(out)@ == old(out)@ + raw_resource_fixed(resource@),
{
    let ghost r = resource@;
    let ghost o = old(out)@;
    put_u8(out, resource.resource_type);
    put_i32(out, resource.slot);
    put_i32(out, resource.width);
    put_i32(out, resource.height);
    assert(out@ =~= o + (seq![r.resource_type] + le_i32(r.slot) + le_i32(r.width) + le_i32(
        r.height,
    )));
    let ghost o1 = out@;
    put_i32(out, resource.x);
    put_i32(out, resource.y);
    put_i32(out, resource.ax);
    put_i32(out, resource.ay);
    assert(out@ =~= o1 + (le_i32(r.x) + le_i32(r.y) + le_i32(r.ax) + le_i32(r.ay)));
    let ghost o2 = out@;
    put_i32(out, resource.aw);
    put_i32(out, resource.ah);
    put_i32(out, resource.cols);
    put_i32(out, resource.rows);
    assert(out@ =~= o2 + (le_i32(r.aw) + le_i32(r.ah) + le_i32(r.cols) + le_i32(r.rows)));
    let ghost o3 = out@;
    out.push(resource.atlas);
    out.push(resource.has_id);
    out.push(resource.has_path);
    out.push(resource.has_parent);
    assert(out@ =~= o3 + seq![r.atlas, r.has_id, r.has_path, r.has_parent]);
    assert(out@ =~= o + raw_resource_fixed(r));
}

fn write_raw_resource<B: WireBytes>(out: &mut Vec<u8>, resource: &RawResource<B>)
    requires
        raw_resource_ok(resource@),
    ensures
        final(out)@ == old(out)@ + raw_resource_wire(resource@),
{
    let ghost r = resource@;
    write_raw_resource_fixed(out, resource);
    write_optional_raw_string(out, resource.has_id, &resource.id);
    write_optional_raw_string(out, resource.has_path, &resource.path);
    write_optional_raw_string(out, resource.has_parent, &resource.parent);
    assert(out@ =~= old(out)@ + raw_resource_wire(r));
}

fn write_raw_group<B: WireBytes>(out: &mut Vec<u8>, group: &RawResourceGroup<B>)
    requires
        raw_group_ok(group@),
    ensures
        final(out)@ == old(out)@ + raw_group_wire(group@),
{
    let ghost g = group@;
    put_u8(out, group.group_type);
    put_i32(out, group.resolution);
    write_count(out, group.subgroups.len());
    write_count(out, group.resources.len());
    put_u8(out, group.has_id);
    put_u8(out, group.has_parent);
    write_optional_raw_string(out, group.has_id, &group.id);
    write_optional_raw_string(out, group.has_parent, &group.parent);
    assert(out@ =~= old(out)@ + raw_group_head_wire(g));
    let ghost base = out@;
    let mut i: usize = 0;
    while i < group.subgroups.len()
        invariant
            g == group@,
            raw_group_ok(g),
            i <= g.subgroups.len(),
            out@ == base + raw_subgroups_wire(g.subgroups.take(i as int)),
        decreases g.subgroups.len() - i,
    {
        let subgroup = &group.subgroups[i];
        assert(g.subgroups[i as int] == subgroup@);
        assert(g.subgroups[i as int].id.len() <= I32_MAX);
        put_i32(out, subgroup.resolution);
        write_raw_string(out, subgroup.id.wire_bytes());
        assert(g.subgroups.take(i + 1).drop_last() =~= g.subgroups.take(i as int));
        assert(g.subgroups.take(i + 1).last() == g.subgroups[i as int]);
        i = i + 1;
        assert(out@ =~= base + raw_subgroups_wire(g.subgroups.take(i as int)));
    }
    assert(g.subgroups.take(i as int) =~= g.subgroups);
    let ghost base2 = out@;
    let mut j: usize = 0;
    while j < group.resources.len()
        invariant
            g == group@,
            raw_group_ok(g),
            j <= g.resources.len(),
            out@ == base2 + raw_resources_wire(g.resources.take(j as int)),
        decreases g.resources.len() - j,
    {
        let resource = &group.resources[j];
        assert(g.resources[j as int] == resource@);
        assert(raw_resource_ok(g.resources[j as int]));
        write_raw_resource(out, resource);
        assert(g.resources.take(j + 1).drop_last() =~= g.resources.take(j as int));
        assert(g.resources.take(j + 1).last() == g.resources[j as int]);
        j = j + 1;
        assert(out@ =~= base2 + raw_resources_wire(g.resources.take(j as int)));
    }
    assert(g.resources.take(j as int) =~= g.resources);
    assert(out@ =~= old(out)@ + raw_group_wire(g));
}

/// Encode a wire-faithful raw NEWTON document, appending it to `out`.
///
/// Raw flag bytes are preserved. A string tail is emitted only when its flag
/// byte is exactly `1`, matching the game reader. The whole document is
/// checked before the first byte is written.
pub fn encode_raw_newton<B: WireBytes>(manifest: &RawResourceManifest<B>, out: &mut Vec<u8>) -> (r:
    Result<(), NewtonError>)
    ensures
        match raw_document_len(manifest@) {
            Ok(_) => r is Ok && final(out)@ == old(out)@ + raw_document_wire(manifest@),
            Err(e) => (r matches Err(x) && x@ == e) && final(out)@ == old(out)@,
        },
{
    let ghost m = manifest@;
    raw_encoded_len(manifest)?;
    proof {
        lemma_raw_document_len(m);
    }
    put_i32(out, manifest.slot_count);
    write_count(out, manifest.groups.len());
    let ghost base = out@;
    let mut i: usize = 0;
    while i < manifest.groups.len()
        invariant
            m == manifest@,
            raw_document_ok(m),
            i <= m.groups.len(),
            out@ == base + raw_groups_wire(m.groups.take(i as int)),
        decreases m.groups.len() - i,
    {
        let group = &manifest.groups[i];
        assert(m.groups[i as int] == group@);
        assert(raw_group_ok(m.groups[i as int]));
        write_raw_group(out, group);
        assert(m.groups.take(i + 1).drop_last() =~= m.groups.take(i as int));
        assert(m.groups.take(i + 1).last() == m.groups[i as int]);
        i = i + 1;
        assert(out@ =~= base + raw_groups_wire(m.groups.take(i as int)));
    }
    assert(m.groups.take(i as int) =~= m.groups);
    assert(out@ =~= old(out)@ + raw_document_wire(m));
    Ok(())
}


// ----- semantic length -----

fn integer(field: &'static str, value: u32) -> (r: Result<i32, NewtonError>)
    ensures
        value <= I32_MAX ==> r == Ok::<i32, NewtonError>(value as i32),
        value > I32_MAX ==> (r matches Err(e) && e@ == (ErrorView::IntegerOutOfRange {
            field: field@,
            value,
        })),
{
    if value <= 0x7fff_ffff {
        Ok(value as i32)
    } else {
        Err(NewtonError::IntegerOutOfRange { field, value })
    }
}

fn optional_integer(field: &'static str, value: Option<u32>) -> (r: Result<(), NewtonError>)
    ensures
        forall|a: nat|
            match #[trigger] check_opt_integer(Ok(a), field@, value) {
                Ok(_) => r is Ok,
                Err(e) => r matches Err(x) && x@ == e,
            },
{
    match value {
        Some(v) => {
            integer(field, v)?;
            Ok(())
        },
        None => Ok(()),
    }
}

fn string_size(value: &str) -> (r: Result<usize, NewtonError>)
    ensures
        len_matches(r, text_len(value@)),
{
    raw_string_size(value.as_bytes())
}

fn validate_resource_numbers(resource: &Resource) -> (r: Result<(), NewtonError>)
    ensures
        forall|a: nat|
            match #[trigger] resource_numbers_check(resource@, Ok(a)) {
                Ok(_) => r is Ok,
                Err(e) => r matches Err(x) && x@ == e,
            },
{
    integer("resource slot", resource.slot)?;
    optional_integer("resource width", resource.width)?;
    optional_integer("resource height", resource.height)?;
    optional_integer("resource atlas x", resource.ax)?;
    optional_integer("resource atlas y", resource.ay)?;
    optional_integer("resource atlas width", resource.aw)?;
    optional_integer("resource atlas height", resource.ah)?;
    optional_integer("resource columns", resource.cols)?;
    optional_integer("resource rows", resource.rows)?;
    Ok(())
}

fn add_optional_text(size: usize, value: &Option<String>) -> (r: Result<usize, NewtonError>)
    ensures
        len_matches(
            r,
            crate::binary::canonical::add_opt_text(
                Ok(size as nat),
                crate::types::opt_text(*value),
            ),
        ),
{
    match value {
        Some(p) => add_sized(size, string_size(p.as_str()), "document"),
        None => Ok(size),
    }
}

fn resource_size(resource: &Resource, size: usize) -> (r: Result<usize, NewtonError>)
    ensures
        len_matches(r, resource_len(resource@, Ok(size as nat))),
{
    validate_resource_numbers(resource)?;
    assert(resource_numbers_check(resource@, Ok(size as nat)) == Ok::<nat, ErrorView>(size as nat));
    let sz = checked_add(size, RESOURCE_FIXED_SIZE, "document")?;
    let sz = add_sized(sz, string_size(resource.id.as_str()), "document")?;
    let sz = add_sized(sz, string_size(resource.path.as_str()), "document")?;
    add_optional_text(sz, &resource.parent)
}

fn subgroup_size(subgroup: &Subgroup, size: usize) -> (r: Result<usize, NewtonError>)
    ensures
        len_matches(r, subgroup_len(subgroup@, Ok(size as nat))),
{
    optional_integer("subgroup resolution", subgroup.resolution)?;
    let sz = checked_add(size, SUBGROUP_FIXED_SIZE, "document")?;
    add_sized(sz, string_size(subgroup.id.as_str()), "document")
}

fn group_size(group: &ResourceGroup, size: usize) -> (r: Result<usize, NewtonError>)
    ensures
        len_matches(r, group_len(group@, Ok(size as nat))),
{
    let ghost g = group@;
    let ghost size0 = size;
    let ghost whole = group_len(g, Ok(size as nat));
    proof {
        assert forall|e: ErrorView|
            #![trigger group_len(g, Err(e))]
            group_len(g, Err(e)) == Err::<nat, ErrorView>(e) by {
            lemma_semantic_err_sticky(e);
        }
    }
    proof {
        let h = group_head_len(g, Ok(size as nat));
        if h is Err {
            lemma_semantic_err_sticky(h->Err_0);
        }
    }
    let sz = checked_add(size, GROUP_FIXED_SIZE, "document")?;
    let sz = add_sized(sz, string_size(group.id()), "document")?;
    let sz = match group.parent() {
        Some(parent) => add_sized(sz, string_size(parent), "document")?,
        None => sz,
    };
    match group.resolution() {
        Some(resolution) => {
            integer("group resolution", resolution)?;
        },
        None => {},
    }
    let ghost head = group_head_len(g, Ok(size as nat));
    assert(head == Ok::<nat, ErrorView>(sz as nat));
    proof {
        lemma_semantic_err_sticky(ErrorView::Io);
    }
    match group {
        ResourceGroup::Composite(c) => {
            let ghost subs = c@.subgroups;
            let ghost start = check(head, subs.len() <= I32_MAX, ErrorView::LengthOverflow { field: "subgroup"@ });
            proof {
                assert forall|e: ErrorView| #![trigger subgroups_len(subs, Err(e))] subgroups_len(subs, Err(e)) == Err::<nat, ErrorView>(e) by {
                    lemma_semantic_err_sticky(e);
                }
            }
            count("subgroup", c.subgroups.len())?;
            let mut acc = sz;
            let mut i: usize = 0;
            while i < c.subgroups.len()
                invariant
                    subs == c@.subgroups,
                    i <= subs.len(),
                    subgroups_len(subs.take(i as int), start) == Ok::<nat, ErrorView>(acc as nat),
                    whole == subgroups_len(subs, start),
                    whole == group_len(g, Ok(size0 as nat)),
                    size0 == size,
                    g == group@,
                decreases subs.len() - i,
            {
                let subgroup = &c.subgroups[i];
                assert(subs[i as int] == subgroup@);
                assert(subs.take(i + 1).drop_last() =~= subs.take(i as int));
                assert(subs.take(i + 1).last() == subs[i as int]);
                match subgroup_size(subgroup, acc) {
                    Ok(n) => {
                        acc = n;
                        i = i + 1;
                    },
                    Err(e) => {
                        proof {
                            lemma_subgroups_prefix_err(subs, i + 1, start);
                        }
                        return Err(e);
                    },
                }
            }
            assert(subs.take(i as int) =~= subs);
            Ok(acc)
        },
        ResourceGroup::Simple(sg) => {
            let ghost rs = sg@.resources;
            let ghost start = check(head, rs.len() <= I32_MAX, ErrorView::LengthOverflow { field: "resource"@ });
            proof {
                assert forall|e: ErrorView| #![trigger resources_len(rs, Err(e))] resources_len(rs, Err(e)) == Err::<nat, ErrorView>(e) by {
                    lemma_semantic_err_sticky(e);
                }
            }
            count("resource", sg.resources.len())?;
            let mut acc = sz;
            let mut i: usize = 0;
            while i < sg.resources.len()
                invariant
                    rs == sg@.resources,
                    i <= rs.len(),
                    resources_len(rs.take(i as int), start) == Ok::<nat, ErrorView>(acc as nat),
                    whole == resources_len(rs, start),
                    whole == group_len(g, Ok(size0 as nat)),
                    size0 == size,
                    g == group@,
                decreases rs.len() - i,
            {
                let resource = &sg.resources[i];
                assert(rs[i as int] == resource@);
                assert(rs.take(i + 1).drop_last() =~= rs.take(i as int));
                assert(rs.take(i + 1).last() == rs[i as int]);
                match resource_size(resource, acc) {
                    Ok(n) => {
                        acc = n;
                        i = i + 1;
                    },
                    Err(e) => {
                        proof {
                            lemma_resources_prefix_err(rs, i + 1, start);
                        }
                        return Err(e);
                    },
                }
            }
            assert(rs.take(i as int) =~= rs);
            Ok(acc)
        },
    }
}

/// Compute the exact encoded byte length of a semantic manifest.
pub fn encoded_len(manifest: &ResourceManifest) -> (r: Result<usize, NewtonError>)
    ensures
        len_matches(r, document_len(manifest@)),
{
    let ghost m = manifest@;
    let ghost start = check(
        check_integer(Ok(8), "slot count"@, m.slot_count),
        m.groups.len() <= I32_MAX,
        ErrorView::LengthOverflow { field: "group"@ },
    );
    proof {
        assert forall|e: ErrorView| #![trigger groups_len(m.groups, Err(e))] groups_len(m.groups, Err(e)) == Err::<nat, ErrorView>(e) by {
            lemma_semantic_err_sticky(e);
        }
    }
    integer("slot count", manifest.slot_count)?;
    count("group", manifest.groups.len())?;
    let mut size: usize = DOCUMENT_HEADER_SIZE;
    let mut i: usize = 0;
    while i < manifest.groups.len()
        invariant
            m == manifest@,
            i <= m.groups.len(),
            groups_len(m.groups.take(i as int), start) == Ok::<nat, ErrorView>(size as nat),
            document_len(m) == groups_len(m.groups, start),
        decreases m.groups.len() - i,
    {
        assert(m.groups.take(i + 1).drop_last() =~= m.groups.take(i as int));
        assert(m.groups.take(i + 1).last() == m.groups[i as int]);
        assert(m.groups[i as int] == manifest.groups[i as int]@);
        match group_size(&manifest.groups[i], size) {
            Ok(s) => {
                size = s;
                i = i + 1;
            },
            Err(e) => {
                proof {
                    lemma_groups_prefix_err(m.groups, i + 1, start);
                }
                return Err(e);
            },
        }
    }
    assert(m.groups.take(i as int) =~= m.groups);
    Ok(size)
}

/// Validate that a semantic manifest can be represented by NEWTON without
/// writing any output.
pub fn validate_encoding(manifest: &ResourceManifest) -> (r: Result<(), NewtonError>)
    ensures
        match document_len(manifest@) {
            Ok(_) => r is Ok,
            Err(e) => r matches Err(x) && x@ == e,
        },
{
    encoded_len(manifest)?;
    Ok(())
}


// ----- semantic encoding -----

fn write_integer(out: &mut Vec<u8>, value: u32)
    requires
        value <= I32_MAX,
    ensures
        final(out)@ == old(out)@ + le_i32(value as i32),
{
    put_i32(out, value as i32);
}

fn write_optional_nonzero(out: &mut Vec<u8>, value: Option<u32>)
    requires
        number_ok(value),
    ensures
        final(out)@ == old(out)@ + le_i32(or_zero(value)),
{
    let v = match value {
        Some(v) => v,
        None => 0,
    };
    write_integer(out, v);
}

fn write_optional_default_one(out: &mut Vec<u8>, value: Option<u32>)
    requires
        number_ok(value),
    ensures
        final(out)@ == old(out)@ + le_i32(or_one(value)),
{
    let v = match value {
        Some(v) => v,
        None => 1,
    };
    write_integer(out, v);
}

fn write_bool(out: &mut Vec<u8>, value: bool)
    ensures
        final(out)@ == old(out)@.push(flag(value)),
{
    put_u8(out, if value { 1 } else { 0 });
}

fn write_string(out: &mut Vec<u8>, value: &str)
    requires
        text_ok(value@),
    ensures
        final(out)@ == old(out)@ + str_wire(encode_utf8(value@)),
{
    write_raw_string(out, value.as_bytes());
}

fn write_optional_string(out: &mut Vec<u8>, value: &Option<String>)
    requires
        opt_text_ok(crate::types::opt_text(*value)),
    ensures
        final(out)@ == old(out)@ + opt_str_wire(
            flag(value is Some),
            opt_text_bytes(crate::types::opt_text(*value)),
        ),
{
    match value {
        Some(p) => write_string(out, p.as_str()),
        None => {
            assert(old(out)@ + opt_str_wire(0, None) =~= old(out)@);
        },
    }
}

fn write_group_header(out: &mut Vec<u8>, id: &String, parent: &Option<String>)
    requires
        text_ok(id@),
        opt_text_ok(crate::types::opt_text(*parent)),
    ensures
        final(out)@ == old(out)@ + seq![1u8, flag(parent is Some)] + opt_str_wire(
            1,
            Some(encode_utf8(id@)),
        ) + opt_str_wire(flag(parent is Some), opt_text_bytes(crate::types::opt_text(*parent))),
{
    put_u8(out, 1);
    write_bool(out, parent.is_some());
    write_string(out, id.as_str());
    write_optional_string(out, parent);
    assert(out@ =~= old(out)@ + seq![1u8, flag(parent is Some)] + opt_str_wire(
        1,
        Some(encode_utf8(id@)),
    ) + opt_str_wire(flag(parent is Some), opt_text_bytes(crate::types::opt_text(*parent))));
}

fn write_subgroup(out: &mut Vec<u8>, subgroup: &Subgroup)
    requires
        subgroup_ok(subgroup@),
    ensures
        final(out)@ == old(out)@ + raw_subgroup_wire(subgroup_to_raw(subgroup@)),
{
    write_optional_nonzero(out, subgroup.resolution);
    write_string(out, subgroup.id.as_str());
    assert(out@ =~= old(out)@ + raw_subgroup_wire(subgroup_to_raw(subgroup@)));
}

fn coordinate_value(value: Option<i32>, resource: &Resource) -> (r: i32)
    ensures
        r == coordinate_or_default(value, resource@),
{
    match value {
        Some(v) => v,
        None => if resource.is_sprite() {
            0
        } else {
            ABSENT_COORDINATE
        },
    }
}

#[verifier::rlimit(40)]
fn write_resource_fixed(out: &mut Vec<u8>, resource: &Resource)
    requires
        resource_ok(resource@),
    ensures
        final(out)@ == old(out)@ + raw_resource_fixed(resource_to_raw(resource@)),
{
    let ghost r = resource_to_raw(resource@);
    let ghost o = old(out)@;
    put_u8(out, resource.resource_type.to_u8());
    write_integer(out, resource.slot);
    write_optional_nonzero(out, resource.width);
    write_optional_nonzero(out, resource.height);
    assert(out@ =~= o + (seq![r.resource_type] + le_i32(r.slot) + le_i32(r.width) + le_i32(
        r.height,
    )));
    let ghost o1 = out@;
    put_i32(out, coordinate_value(resource.x, resource));
    put_i32(out, coordinate_value(resource.y, resource));
    write_optional_nonzero(out, resource.ax);
    write_optional_nonzero(out, resource.ay);
    assert(out@ =~= o1 + (le_i32(r.x) + le_i32(r.y) + le_i32(r.ax) + le_i32(r.ay)));
    let ghost o2 = out@;
    write_optional_nonzero(out, resource.aw);
    write_optional_nonzero(out, resource.ah);
    write_optional_default_one(out, resource.cols);
    write_optional_default_one(out, resource.rows);
    assert(out@ =~= o2 + (le_i32(r.aw) + le_i32(r.ah) + le_i32(r.cols) + le_i32(r.rows)));
    let ghost o3 = out@;
    write_bool(out, resource.atlas);
    write_bool(out, true);
    write_bool(out, true);
    write_bool(out, resource.parent.is_some());
    assert(out@ =~= o3 + seq![r.atlas, r.has_id, r.has_path, r.has_parent]);
    assert(out@ =~= o + raw_resource_fixed(r));
}

fn write_resource(out: &mut Vec<u8>, resource: &Resource)
    requires
        resource_ok(resource@),
    ensures
        final(out)@ == old(out)@ + raw_resource_wire(resource_to_raw(resource@)),
{
    let ghost r = resource_to_raw(resource@);
    write_resource_fixed(out, resource);
    write_string(out, resource.id.as_str());
    write_string(out, resource.path.as_str());
    write_optional_string(out, &resource.parent);
    assert(out@ =~= old(out)@ + raw_resource_wire(r));
}

fn write_resources(out: &mut Vec<u8>, group: &SimpleGroup)
    requires
        forall|i: int|
            0 <= i < group@.resources.len() ==> resource_ok(#[trigger] group@.resources[i]),
    ensures
        final(out)@ == old(out)@ + raw_resources_wire(resources_to_raw(group@.resources)),
{
    let ghost rs = group@.resources;
    let ghost raws = resources_to_raw(rs);
    let mut i: usize = 0;
    while i < group.resources.len()
        invariant
            rs == group@.resources,
            raws == resources_to_raw(rs),
            forall|k: int| 0 <= k < rs.len() ==> resource_ok(#[trigger] rs[k]),
            i <= rs.len(),
            out@ == old(out)@ + raw_resources_wire(raws.take(i as int)),
        decreases rs.len() - i,
    {
        let resource = &group.resources[i];
        assert(rs[i as int] == resource@);
        assert(resource_ok(rs[i as int]));
        write_resource(out, resource);
        assert(raws.take(i + 1).drop_last() =~= raws.take(i as int));
        assert(raws.take(i + 1).last() == resource_to_raw(rs[i as int]));
        i = i + 1;
        assert(out@ =~= old(out)@ + raw_resources_wire(raws.take(i as int)));
    }
    assert(raws.take(i as int) =~= raws);
}

fn write_subgroups(out: &mut Vec<u8>, group: &CompositeGroup)
    requires
        forall|i: int|
            0 <= i < group@.subgroups.len() ==> subgroup_ok(#[trigger] group@.subgroups[i]),
    ensures
        final(out)@ == old(out)@ + raw_subgroups_wire(subgroups_to_raw(group@.subgroups)),
{
    let ghost subs = group@.subgroups;
    let ghost raws = subgroups_to_raw(subs);
    let mut i: usize = 0;
    while i < group.subgroups.len()
        invariant
            subs == group@.subgroups,
            raws == subgroups_to_raw(subs),
            forall|k: int| 0 <= k < subs.len() ==> subgroup_ok(#[trigger] subs[k]),
            i <= subs.len(),
            out@ == old(out)@ + raw_subgroups_wire(raws.take(i as int)),
        decreases subs.len() - i,
    {
        let subgroup = &group.subgroups[i];
        assert(subs[i as int] == subgroup@);
        assert(subgroup_ok(subs[i as int]));
        write_subgroup(out, subgroup);
        assert(raws.take(i + 1).drop_last() =~= raws.take(i as int));
        assert(raws.take(i + 1).last() == subgroup_to_raw(subs[i as int]));
        i = i + 1;
        assert(out@ =~= old(out)@ + raw_subgroups_wire(raws.take(i as int)));
    }
    assert(raws.take(i as int) =~= raws);
}

fn write_group(out: &mut Vec<u8>, group: &ResourceGroup)
    requires
        group_ok(group@),
    ensures
        final(out)@ == old(out)@ + raw_group_wire(group_to_raw(group@)),
{
    let ghost raw = group_to_raw(group@);
    match group {
        ResourceGroup::Composite(group) => {
            put_u8(out, 1);
            write_optional_nonzero(out, group.resolution);
            write_count(out, group.subgroups.len());
            write_count(out, 0);
            write_group_header(out, &group.id, &group.parent);
            assert(out@ =~= old(out)@ + raw_group_head_wire(raw));
            write_subgroups(out, group);
            assert(raw_resources_wire(raw.resources) =~= Seq::<u8>::empty());
            assert(out@ =~= old(out)@ + raw_group_wire(raw));
        },
        ResourceGroup::Simple(group) => {
            put_u8(out, 2);
            write_optional_nonzero(out, group.resolution);
            write_count(out, 0);
            write_count(out, group.resources.len());
            write_group_header(out, &group.id, &group.parent);
            assert(out@ =~= old(out)@ + raw_group_head_wire(raw));
            write_resources(out, group);
            assert(raw_subgroups_wire(raw.subgroups) =~= Seq::<u8>::empty());
            assert(out@ =~= old(out)@ + raw_group_wire(raw));
        },
    }
}

/// Encode a semantic NEWTON document, appending it to `out`.
///
/// The entire document is preflighted before the first byte is written.
pub fn encode_newton(manifest: &ResourceManifest, out: &mut Vec<u8>) -> (r: Result<(), NewtonError>)
    ensures
        match document_len(manifest@) {
            Ok(_) => r is Ok && final(out)@ == old(out)@ + document_wire(manifest@),
            Err(e) => (r matches Err(x) && x@ == e) && final(out)@ == old(out)@,
        },
{
    let ghost m = manifest@;
    let ghost raws = groups_to_raw(m.groups);
    validate_encoding(manifest)?;
    proof {
        lemma_document_len(m);
    }
    write_integer(out, manifest.slot_count);
    write_count(out, manifest.groups.len());
    let ghost base = out@;
    let mut i: usize = 0;
    while i < manifest.groups.len()
        invariant
            m == manifest@,
            raws == groups_to_raw(m.groups),
            document_ok(m),
            i <= m.groups.len(),
            out@ == base + raw_groups_wire(raws.take(i as int)),
        decreases m.groups.len() - i,
    {
        let group = &manifest.groups[i];
        assert(m.groups[i as int] == group@);
        assert(group_ok(m.groups[i as int]));
        write_group(out, group);
        assert(raws.take(i + 1).drop_last() =~= raws.take(i as int));
        assert(raws.take(i + 1).last() == group_to_raw(m.groups[i as int]));
        i = i + 1;
        assert(out@ =~= base + raw_groups_wire(raws.take(i as int)));
    }
    assert(raws.take(i as int) =~= raws);
    assert(out@ =~= old(out)@ + document_wire(m));
    Ok(())
}

} // verus!
