use crate::binary::format::i32_from_le;
use crate::binary::parse::{
    allocate, charge_allocation, charge_entries, contextualize, decode_complete, decode_document,
    decode_prefix, entry_text, groups_loop, initial_state, mark, read_count, read_group,
    read_group_head, reaches_group_records, read_i32, read_opt_string, read_resource, read_string, read_subgroup,
    read_u8, resources_loop, set_context, subgroups_loop, DecState, DecodeEntry, DecodeLimits,
    DecodeMode, GroupHead, Parse,
};
use crate::error::{ErrorView, NewtonError};
use crate::memory::reserve_exact;
use crate::raw::{
    copy_bytes, BorrowedRawResourceManifest, OwnedRawResourceManifest, RawGroupView, RawManifestView, RawResource, RawResourceGroup,
    RawResourceManifest, RawResourceView, RawSubgroup, RawSubgroupView,
};
use crate::binary::roundtrip::decode_errors_are_located;
use crate::text::numbered;
use vstd::prelude::*;
use vstd::slice::slice_subrange;
use vstd::string::StringExecFns;

verus! {

impl Default for DecodeLimits {
    fn default() -> (r: Self)
        ensures
            r == default_limits(),
    {
        DecodeLimits {
            max_groups: 100_000,
            max_subgroups_per_group: 100_000,
            max_resources_per_group: 1_000_000,
            max_total_entries: 2_000_000,
            max_string_bytes: 1024 * 1024,
            max_total_string_bytes: 512 * 1024 * 1024,
            max_allocation_bytes: 1024 * 1024 * 1024,
        }
    }
}

/// The limits that [`DecodeLimits::default`] gives.
pub open spec fn default_limits() -> DecodeLimits {
    DecodeLimits {
        max_groups: 100_000,
        max_subgroups_per_group: 100_000,
        max_resources_per_group: 1_000_000,
        max_total_entries: 2_000_000,
        max_string_bytes: 1_048_576,
        max_total_string_bytes: 536_870_912,
        max_allocation_bytes: 1_073_741_824,
    }
}

/// The outcome of a decode of `len` bytes that does not copy its strings
/// agrees with its specification: a success gives the specified document, and
/// an error is the specified one unless the allocator refused to reserve
/// records on the way.
pub open spec fn decode_matches<B: View<V = Seq<u8>>>(
    r: Result<RawResourceManifest<B>, NewtonError>,
    s: Result<RawManifestView, ErrorView>,
    len: int,
    reserves: bool,
) -> bool {
    match r {
        Ok(m) => s matches Ok(v) && m@ == v,
        Err(e) => (s matches Err(x) && e@ == x) || (reserves && refused_reservation(e@, len, false)),
    }
}

/// A refusal of the allocator to make room for the records of a non-empty
/// list, or, in a decode that `copies` its strings, for the bytes of a string.
pub open spec fn reservation_refusal(e: ErrorView, copies: bool) -> bool {
    ||| e == ErrorView::AllocationFailed { field: "group records"@ }
    ||| e == ErrorView::AllocationFailed { field: "subgroup records"@ }
    ||| e == ErrorView::AllocationFailed { field: "resource records"@ }
    ||| copies && e == ErrorView::AllocationFailed { field: "string bytes"@ }
}

/// A report of a reservation that the allocator refused, located at an
/// offset inside an input of `len` bytes.
pub open spec fn refused_reservation(e: ErrorView, len: int, copies: bool) -> bool {
    e matches ErrorView::DecodeContext { offset, source, .. } && offset <= len
        && reservation_refusal(*source, copies)
}

/// An error located at a field that starts at most `len` bytes into the
/// input, around a cause that is not itself a location.
pub open spec fn located(e: ErrorView, len: int) -> bool {
    e matches ErrorView::DecodeContext { offset, source, .. } && offset <= len
        && !(*source).is_context()
}

/// The root of a located refusal is the refusal.
pub proof fn lemma_refused_root(e: ErrorView, len: int, copies: bool)
    requires
        refused_reservation(e, len, copies),
    ensures
        e.root() is AllocationFailed,
{
    if let ErrorView::DecodeContext { source, .. } = e {
        assert((*source).root() == *source);
    }
}

/// `std::io::Error::new` with `ErrorKind::UnexpectedEof`.
#[verifier::external_body]
fn unexpected_eof(message: &str) -> std::io::Error {
    std::io::Error::new(std::io::ErrorKind::UnexpectedEof, message)
}

/// The byte strings a decoder hands out for the string fields it reads:
/// slices of its input, or copies of them.
trait DecodedBytes<'a>: Sized + View<V = Seq<u8>> {
    /// Whether the value is a copy of the input bytes.
    spec fn copies() -> bool;

    /// The value for a field whose bytes are `input`. A copy first asks the
    /// allocator for room, and reports a refusal.
    fn from_input(input: &'a [u8]) -> (r: Result<Self, NewtonError>)
        ensures
            match r {
                Ok(b) => b@ == input@,
                Err(e) => Self::copies() && e@ == (ErrorView::AllocationFailed { field: "string bytes"@ }),
            },
    ;
}

impl<'a> DecodedBytes<'a> for &'a [u8] {
    spec fn copies() -> bool {
        false
    }

    fn from_input(input: &'a [u8]) -> (r: Result<Self, NewtonError>) {
        Ok(input)
    }
}

impl<'a> DecodedBytes<'a> for Vec<u8> {
    spec fn copies() -> bool {
        true
    }

    fn from_input(input: &'a [u8]) -> (r: Result<Self, NewtonError>) {
        copy_bytes(input, "string bytes")
    }
}

struct Decoder<'a> {
    bytes: &'a [u8],
    position: usize,
    limits: DecodeLimits,
    mode: DecodeMode,
    total_entries: usize,
    total_string_bytes: usize,
    allocation_bytes: usize,
    entry: DecodeEntry,
    field: &'static str,
    field_offset: usize,
}

/// Two decoder states name the same error location.
pub open spec fn same_location(a: DecState, b: DecState) -> bool {
    a.entry == b.entry && a.field == b.field && a.offset == b.offset
}

impl<'a> Decoder<'a> {
    spec fn state(&self) -> DecState {
        DecState {
            pos: self.position as int,
            entries: self.total_entries as int,
            strings: self.total_string_bytes as int,
            alloc: self.allocation_bytes as int,
            entry: self.entry,
            field: self.field@,
            offset: self.field_offset as int,
        }
    }

    spec fn inv(&self) -> bool {
        &&& self.position <= self.bytes@.len()
        &&& self.bytes@.len() <= isize::MAX
        &&& self.field_offset <= self.position
    }

    spec fn same_input(&self, other: &Self) -> bool {
        &&& self.bytes@ == other.bytes@
        &&& self.limits == other.limits
        &&& self.mode == other.mode
    }

    fn new(bytes: &'a [u8], limits: DecodeLimits, mode: DecodeMode) -> (r: Self)
        requires
            bytes@.len() <= isize::MAX,
        ensures
            r.inv(),
            r.state() == initial_state(),
            r.bytes@ == bytes@,
            r.limits == limits,
            r.mode == mode,
    {
        Decoder {
            bytes,
            position: 0,
            limits,
            mode,
            total_entries: 0,
            total_string_bytes: 0,
            allocation_bytes: 0,
            entry: DecodeEntry::Document,
            field: "header",
            field_offset: 0,
        }
    }

    fn mark_field(&mut self, field: &'static str)
        requires
            old(self).inv(),
        ensures
            final(self).inv(),
            final(self).same_input(old(self)),
            final(self).state() == mark(old(self).state(), field@),
    {
        self.field = field;
        self.field_offset = self.position;
    }

    fn set_context(&mut self, entry: DecodeEntry, field: &'static str)
        requires
            old(self).inv(),
        ensures
            final(self).inv(),
            final(self).same_input(old(self)),
            final(self).state() == set_context(old(self).state(), entry, field@),
    {
        self.entry = entry;
        self.mark_field(field);
    }

    fn take(&mut self, length: usize) -> (r: Result<&'a [u8], NewtonError>)
        requires
            old(self).inv(),
            length <= 0x7fff_ffff,
        ensures
            final(self).inv(),
            final(self).same_input(old(self)),
            match crate::binary::parse::take(old(self).bytes@, old(self).state(), length as int) {
                Ok((b, st)) => r matches Ok(x) && x@ == b && final(self).state() == st,
                Err((e, st)) => (r matches Err(x) && x@ == e) && final(self).state() == st,
            },
    {
        let end = match self.position.checked_add(length) {
            Some(end) => end,
            None => {
                return Err(NewtonError::LengthOverflow { field: "document position" });
            },
        };
        if end > self.bytes.len() {
            return Err(NewtonError::Io(unexpected_eof("NEWTON input ended inside a field")));
        }
        let bytes = slice_subrange(self.bytes, self.position, end);
        self.position = end;
        Ok(bytes)
    }

    fn read_u8(&mut self, field: &'static str) -> (r: Result<u8, NewtonError>)
        requires
            old(self).inv(),
        ensures
            final(self).inv(),
            final(self).same_input(old(self)),
            match read_u8(old(self).bytes@, old(self).state(), field@) {
                Ok((v, st)) => r == Ok::<u8, NewtonError>(v) && final(self).state() == st,
                Err((e, st)) => (r matches Err(x) && x@ == e) && final(self).state() == st,
            },
    {
        self.mark_field(field);
        let bytes = self.take(1)?;
        Ok(bytes[0])
    }

    fn read_i32(&mut self, field: &'static str) -> (r: Result<i32, NewtonError>)
        requires
            old(self).inv(),
        ensures
            final(self).inv(),
            final(self).same_input(old(self)),
            match read_i32(old(self).bytes@, old(self).state(), field@) {
                Ok((v, st)) => r == Ok::<i32, NewtonError>(v) && final(self).state() == st,
                Err((e, st)) => (r matches Err(x) && x@ == e) && final(self).state() == st,
            },
    {
        self.mark_field(field);
        let b = self.take(4)?;
        let value: u32 = (b[0] as u32) | ((b[1] as u32) << 8) | ((b[2] as u32) << 16) | ((
        b[3] as u32) << 24);
        Ok(value as i32)
    }

    fn read_count(&mut self, field: &'static str, limit: usize) -> (r: Result<usize, NewtonError>)
        requires
            old(self).inv(),
        ensures
            final(self).inv(),
            final(self).same_input(old(self)),
            match read_count(old(self).bytes@, old(self).state(), field@, limit) {
                Ok((v, st)) => r == Ok::<usize, NewtonError>(v as usize) && v <= limit
                    && final(self).state() == st,
                Err((e, st)) => (r matches Err(x) && x@ == e) && final(self).state() == st,
            },
    {
        let raw = self.read_i32(field)?;
        if raw < 0 {
            return Err(NewtonError::NegativeValue { field, value: raw });
        }
        let count = raw as usize;
        if count > limit {
            return Err(NewtonError::CountLimitExceeded { field, count, limit });
        }
        Ok(count)
    }

    fn charge_entries(&mut self, count: usize) -> (r: Result<(), NewtonError>)
        requires
            old(self).inv(),
        ensures
            final(self).inv(),
            final(self).same_input(old(self)),
            match charge_entries(old(self).state(), count as int, old(self).limits) {
                Ok(st) => r is Ok && final(self).state() == st,
                Err((e, st)) => (r matches Err(x) && x@ == e) && final(self).state() == st,
            },
    {
        let total = match self.total_entries.checked_add(count) {
            Some(total) => total,
            None => {
                return Err(NewtonError::LengthOverflow { field: "total entry" });
            },
        };
        if total > self.limits.max_total_entries {
            return Err(
                NewtonError::CountLimitExceeded {
                    field: "total entry",
                    count: total,
                    limit: self.limits.max_total_entries,
                },
            );
        }
        self.total_entries = total;
        Ok(())
    }

    fn charge_allocation(&mut self, bytes: usize) -> (r: Result<(), NewtonError>)
        requires
            old(self).inv(),
        ensures
            final(self).inv(),
            final(self).same_input(old(self)),
            match charge_allocation(old(self).state(), bytes as int, old(self).limits) {
                Ok(st) => r is Ok && final(self).state() == st,
                Err((e, st)) => (r matches Err(x) && x@ == e) && final(self).state() == st,
            },
    {
        let total = match self.allocation_bytes.checked_add(bytes) {
            Some(total) => total,
            None => {
                return Err(NewtonError::LengthOverflow { field: "estimated allocation bytes" });
            },
        };
        if total > self.limits.max_allocation_bytes {
            return Err(
                NewtonError::AllocationLimitExceeded {
                    requested: total,
                    limit: self.limits.max_allocation_bytes,
                },
            );
        }
        self.allocation_bytes = total;
        Ok(())
    }

    /// Charge `count` records of `record_size` bytes, then reserve them.
    fn allocate_vec<T>(&mut self, count: usize, record_size: usize, field: &'static str) -> (r:
        Result<Vec<T>, NewtonError>)
        requires
            old(self).inv(),
        ensures
            final(self).inv(),
            final(self).same_input(old(self)),
            match allocate(old(self).state(), count as int, record_size, field@, old(self).limits) {
                Ok(st) => final(self).state() == st && ((r matches Ok(v) && v@.len() == 0) || (
                count > 0 && (r matches Err(x) && x@ == (ErrorView::AllocationFailed { field: field@ })))),
                Err((e, st)) => (r matches Err(x) && x@ == e) && final(self).state() == st,
            },
    {
        let bytes = match record_size.checked_mul(count) {
            Some(bytes) => bytes,
            None => {
                return Err(NewtonError::LengthOverflow { field });
            },
        };
        self.charge_allocation(bytes)?;
        let mut values = Vec::new();
        reserve_exact(&mut values, count, field)?;
        Ok(values)
    }

    fn read_string<B: DecodedBytes<'a>>(&mut self, field: &'static str) -> (r: Result<B, NewtonError>)
        requires
            old(self).inv(),
        ensures
            final(self).inv(),
            final(self).same_input(old(self)),
            match read_string(
                old(self).bytes@,
                old(self).state(),
                field@,
                old(self).limits,
                old(self).mode,
            ) {
                Ok((v, st)) => match r {
                    Ok(x) => x@ == v && final(self).state() == st,
                    Err(x) => reservation_refusal(x@, B::copies()),
                },
                Err((e, st)) => (r matches Err(x) && x@ == e) && final(self).state() == st,
            },
    {
        let raw_length = self.read_i32(field)?;
        if raw_length < 0 {
            return Err(NewtonError::NegativeValue { field, value: raw_length });
        }
        let length = raw_length as usize;
        if length > self.limits.max_string_bytes {
            return Err(
                NewtonError::StringLimitExceeded { length, limit: self.limits.max_string_bytes },
            );
        }
        let total = match self.total_string_bytes.checked_add(length) {
            Some(total) => total,
            None => {
                return Err(NewtonError::LengthOverflow { field: "cumulative string bytes" });
            },
        };
        if total > self.limits.max_total_string_bytes {
            return Err(
                NewtonError::TotalStringLimitExceeded {
                    requested: total,
                    limit: self.limits.max_total_string_bytes,
                },
            );
        }
        self.total_string_bytes = total;
        let cost = if self.mode.charge_strings {
            length
        } else {
            0
        };
        self.charge_allocation(cost)?;
        self.mark_field(field);
        let input = self.take(length)?;
        B::from_input(input)
    }

    fn read_optional_string<B: DecodedBytes<'a>>(&mut self, flag: u8, field: &'static str) -> (r: Result<
        Option<B>,
        NewtonError,
    >)
        requires
            old(self).inv(),
        ensures
            final(self).inv(),
            final(self).same_input(old(self)),
            match read_opt_string(
                old(self).bytes@,
                old(self).state(),
                flag,
                field@,
                old(self).limits,
                old(self).mode,
            ) {
                Ok((v, st)) => match r {
                    Ok(x) => crate::raw::opt_bytes(x) == v && final(self).state() == st,
                    Err(x) => reservation_refusal(x@, B::copies()),
                },
                Err((e, st)) => (r matches Err(x) && x@ == e) && final(self).state() == st,
            },
    {
        if flag == 1 {
            let value = self.read_string(field)?;
            Ok(Some(value))
        } else {
            Ok(None)
        }
    }

    fn read_subgroup<B: DecodedBytes<'a>>(&mut self) -> (r: Result<RawSubgroup<B>, NewtonError>)
        requires
            old(self).inv(),
        ensures
            final(self).inv(),
            final(self).same_input(old(self)),
            match read_subgroup(old(self).bytes@, old(self).state(), old(self).limits, old(self).mode) {
                Ok((v, st)) => match r {
                    Ok(x) => x@ == v && final(self).state() == st,
                    Err(x) => reservation_refusal(x@, B::copies()),
                },
                Err((e, st)) => r matches Err(x) && ((x@ == e && final(self).state() == st)
                    || reservation_refusal(x@, B::copies())),
            },
    {
        let resolution = self.read_i32("subgroup resolution")?;
        let id = self.read_string("subgroup id")?;
        Ok(RawSubgroup { resolution, id })
    }

    #[verifier::rlimit(60)]
    fn read_resource<B: DecodedBytes<'a>>(&mut self) -> (r: Result<RawResource<B>, NewtonError>)
        requires
            old(self).inv(),
        ensures
            final(self).inv(),
            final(self).same_input(old(self)),
            match read_resource(old(self).bytes@, old(self).state(), old(self).limits, old(self).mode) {
                Ok((v, st)) => match r {
                    Ok(x) => x@ == v && final(self).state() == st,
                    Err(x) => reservation_refusal(x@, B::copies()),
                },
                Err((e, st)) => r matches Err(x) && ((x@ == e && final(self).state() == st)
                    || reservation_refusal(x@, B::copies())),
            },
    {
        let resource_type = self.read_u8("resource type")?;
        let slot = self.read_i32("resource slot")?;
        let width = self.read_i32("resource width")?;
        let height = self.read_i32("resource height")?;
        let x = self.read_i32("resource x")?;
        let y = self.read_i32("resource y")?;
        let ax = self.read_i32("resource atlas x")?;
        let ay = self.read_i32("resource atlas y")?;
        let aw = self.read_i32("resource atlas width")?;
        let ah = self.read_i32("resource atlas height")?;
        let cols = self.read_i32("resource columns")?;
        let rows = self.read_i32("resource rows")?;
        let atlas = self.read_u8("resource atlas flag")?;
        let has_id = self.read_u8("resource id flag")?;
        let has_path = self.read_u8("resource path flag")?;
        let has_parent = self.read_u8("resource parent flag")?;
        let id = self.read_optional_string(has_id, "resource id")?;
        let path = self.read_optional_string(has_path, "resource path")?;
        let parent = self.read_optional_string(has_parent, "resource parent")?;
        Ok(RawResource {
            resource_type,
            slot,
            width,
            height,
            x,
            y,
            ax,
            ay,
            aw,
            ah,
            cols,
            rows,
            atlas,
            has_id,
            has_path,
            has_parent,
            id,
            path,
            parent,
        })
    }

    fn read_group_head<B: DecodedBytes<'a>>(&mut self) -> (r: Result<
        (
            u8,
            i32,
            usize,
            usize,
            u8,
            u8,
            Option<B>,
            Option<B>,
        ),
        NewtonError,
    >)
        requires
            old(self).inv(),
        ensures
            final(self).inv(),
            final(self).same_input(old(self)),
            match read_group_head(old(self).bytes@, old(self).state(), old(self).limits, old(self).mode) {
                Ok((h, st)) => match r {
                    Ok(x) => x.0 == h.group_type && x.1 == h.resolution && x.2 == h.subgroup_count
                        && x.3 == h.resource_count && x.4 == h.has_id && x.5 == h.has_parent
                        && crate::raw::opt_bytes(x.6) == h.id && crate::raw::opt_bytes(x.7) == h.parent
                        && final(self).state() == st,
                    Err(x) => reservation_refusal(x@, B::copies()),
                },
                Err((e, st)) => r matches Err(x) && ((x@ == e && final(self).state() == st)
                    || reservation_refusal(x@, B::copies())),
            },
    {
        let group_type = self.read_u8("group type")?;
        let resolution = self.read_i32("group resolution")?;
        let subgroup_count = self.read_count(
            "subgroup count",
            self.limits.max_subgroups_per_group,
        )?;
        let resource_count = self.read_count(
            "resource count",
            self.limits.max_resources_per_group,
        )?;
        self.charge_entries(subgroup_count)?;
        self.charge_entries(resource_count)?;
        let has_id = self.read_u8("group id flag")?;
        let has_parent = self.read_u8("group parent flag")?;
        let id = self.read_optional_string(has_id, "group id")?;
        let parent = self.read_optional_string(has_parent, "group parent")?;
        Ok((group_type, resolution, subgroup_count, resource_count, has_id, has_parent, id, parent))
    }

    fn read_subgroups<B: DecodedBytes<'a>>(&mut self, group: usize, count: usize, subgroups: &mut Vec<RawSubgroup<B>>) -> (r: Result<(), NewtonError>)
        requires
            old(self).inv(),
            old(subgroups)@.len() == 0,
        ensures
            final(self).inv(),
            final(self).same_input(old(self)),
            match subgroups_loop(old(self).bytes@, old(self).state(), group as int, 0, count as int, Seq::empty(), old(self).limits, old(self).mode) {
                Ok((v, st)) => match r {
                    Ok(_) => final(subgroups)@.map_values(|s: RawSubgroup<B>| s@) == v && final(self).state() == st,
                    Err(x) => reservation_refusal(x@, B::copies()),
                },
                Err((e, st)) => r matches Err(x) && ((x@ == e && same_location(final(self).state(), st))
                    || reservation_refusal(x@, B::copies())),
            },
    {
        let ghost whole = subgroups_loop(self.bytes@, self.state(), group as int, 0, count as int, Seq::empty(), self.limits, self.mode);
        let mut j: usize = 0;
        assert(subgroups@.map_values(|s: RawSubgroup<B>| s@) =~= Seq::<RawSubgroupView>::empty());
        while j < count
            invariant
                self.inv(),
                self.same_input(old(self)),
                j <= count,
                whole == subgroups_loop(old(self).bytes@, old(self).state(), group as int, 0, count as int, Seq::empty(), old(self).limits, old(self).mode),
                whole == subgroups_loop(self.bytes@, self.state(), group as int, j as int, count as int, subgroups@.map_values(|s: RawSubgroup<B>| s@), self.limits, self.mode),
            decreases count - j,
        {
            self.set_context(DecodeEntry::Subgroup { group, subgroup: j }, "subgroup resolution");
            let subgroup = self.read_subgroup()?;
            let ghost before = subgroups@.map_values(|s: RawSubgroup<B>| s@);
            subgroups.push(subgroup);
            assert(subgroups@.map_values(|s: RawSubgroup<B>| s@) =~= before.push(subgroup@));
            j = j + 1;
        }
        Ok(())
    }

    fn read_resources<B: DecodedBytes<'a>>(&mut self, group: usize, count: usize, resources: &mut Vec<RawResource<B>>) -> (r: Result<(), NewtonError>)
        requires
            old(self).inv(),
            old(resources)@.len() == 0,
        ensures
            final(self).inv(),
            final(self).same_input(old(self)),
            match resources_loop(old(self).bytes@, old(self).state(), group as int, 0, count as int, Seq::empty(), old(self).limits, old(self).mode) {
                Ok((v, st)) => match r {
                    Ok(_) => final(resources)@.map_values(|s: RawResource<B>| s@) == v && final(self).state() == st,
                    Err(x) => reservation_refusal(x@, B::copies()),
                },
                Err((e, st)) => r matches Err(x) && ((x@ == e && same_location(final(self).state(), st))
                    || reservation_refusal(x@, B::copies())),
            },
    {
        let ghost whole = resources_loop(self.bytes@, self.state(), group as int, 0, count as int, Seq::empty(), self.limits, self.mode);
        let mut k: usize = 0;
        assert(resources@.map_values(|s: RawResource<B>| s@) =~= Seq::<RawResourceView>::empty());
        while k < count
            invariant
                self.inv(),
                self.same_input(old(self)),
                k <= count,
                whole == resources_loop(old(self).bytes@, old(self).state(), group as int, 0, count as int, Seq::empty(), old(self).limits, old(self).mode),
                whole == resources_loop(self.bytes@, self.state(), group as int, k as int, count as int, resources@.map_values(|s: RawResource<B>| s@), self.limits, self.mode),
            decreases count - k,
        {
            self.set_context(DecodeEntry::Resource { group, resource: k }, "resource type");
            let resource = self.read_resource()?;
            let ghost before = resources@.map_values(|s: RawResource<B>| s@);
            resources.push(resource);
            assert(resources@.map_values(|s: RawResource<B>| s@) =~= before.push(resource@));
            k = k + 1;
        }
        Ok(())
    }

    fn read_group<B: DecodedBytes<'a>>(&mut self, index: usize) -> (r: Result<RawResourceGroup<B>, NewtonError>)
        requires
            old(self).inv(),
        ensures
            final(self).inv(),
            final(self).same_input(old(self)),
            match read_group(old(self).bytes@, old(self).state(), index as int, old(self).limits, old(self).mode) {
                Ok((v, st)) => match r {
                    Ok(x) => x@ == v && final(self).state() == st,
                    Err(x) => reservation_refusal(x@, B::copies()),
                },
                Err((e, st)) => r matches Err(x) && ((x@ == e && same_location(final(self).state(), st)) || reservation_refusal(x@, B::copies())),
            },
    {
        let (group_type, resolution, subgroup_count, resource_count, has_id, has_parent, id, parent) =
            self.read_group_head()?;
        let mut subgroups = self.allocate_vec(
            subgroup_count,
            self.mode.subgroup_record_size,
            "subgroup records",
        )?;
        self.read_subgroups(index, subgroup_count, &mut subgroups)?;
        let mut resources = self.allocate_vec(
            resource_count,
            self.mode.resource_record_size,
            "resource records",
        )?;
        self.read_resources(index, resource_count, &mut resources)?;
        Ok(RawResourceGroup { group_type, resolution, has_id, has_parent, id, parent, subgroups, resources })
    }

    fn decode<B: DecodedBytes<'a>>(&mut self) -> (r: Result<RawResourceManifest<B>, NewtonError>)
        requires
            old(self).inv(),
            old(self).state() == initial_state(),
        ensures
            final(self).inv(),
            final(self).same_input(old(self)),
            match decode_document(old(self).bytes@, old(self).limits, old(self).mode) {
                Ok((v, st)) => match r {
                    Ok(x) => x@ == v && final(self).state() == st,
                    Err(x) => reservation_refusal(x@, B::copies()),
                },
                Err((e, st)) => r matches Err(x) && ((x@ == e && same_location(final(self).state(), st)) || reservation_refusal(x@, B::copies())),
            },
            r matches Err(x) && x@ is AllocationFailed ==> reaches_group_records(
                old(self).bytes@,
                old(self).limits,
                old(self).mode,
            ),
    {
        self.set_context(DecodeEntry::Document, "slot count");
        let slot_count = self.read_i32("slot count")?;
        let group_count = self.read_count("group count", self.limits.max_groups)?;
        self.charge_entries(group_count)?;
        let mut groups: Vec<RawResourceGroup<B>> = self.allocate_vec(
            group_count,
            self.mode.group_record_size,
            "group records",
        )?;
        let ghost reaches = reaches_group_records(old(self).bytes@, old(self).limits, old(self).mode);
        assert(group_count > 0 ==> reaches);
        let ghost lp = groups_loop(self.bytes@, self.state(), 0, group_count as int, Seq::empty(), self.limits, self.mode);
        let ghost total = decode_document(old(self).bytes@, old(self).limits, old(self).mode);
        assert(groups@.map_values(|g: RawResourceGroup<B>| g@) =~= Seq::<RawGroupView>::empty());
        let mut i: usize = 0;
        while i < group_count
            invariant
                self.inv(),
                self.same_input(old(self)),
                i <= group_count,
                group_count > 0 ==> reaches,
                reaches == reaches_group_records(old(self).bytes@, old(self).limits, old(self).mode),
                total == decode_document(old(self).bytes@, old(self).limits, old(self).mode),
                total == match lp {
                    Err(x) => Err(x),
                    Ok((gs, st)) => Ok((RawManifestView { slot_count, groups: gs }, st)),
                },
                lp == groups_loop(self.bytes@, self.state(), i as int, group_count as int, groups@.map_values(|g: RawResourceGroup<B>| g@), self.limits, self.mode),
            decreases group_count - i,
        {
            self.set_context(DecodeEntry::Group(i), "group type");
            let group = self.read_group(i)?;
            let ghost before = groups@.map_values(|g: RawResourceGroup<B>| g@);
            groups.push(group);
            assert(groups@.map_values(|g: RawResourceGroup<B>| g@) =~= before.push(group@));
            i = i + 1;
        }
        Ok(RawResourceManifest { slot_count, groups })
    }

    fn contextualize(&self, source: NewtonError) -> (r: NewtonError)
        ensures
            r@ == contextualize(self.state(), source@),
    {
        NewtonError::DecodeContext {
            offset: self.field_offset as u64,
            context: entry_string(self.entry),
            field: self.field,
            source: Box::new(source),
        }
    }
}

/// The text that names a record location.
fn entry_string(entry: DecodeEntry) -> (r: String)
    ensures
        r@ == entry_text(entry),
{
    match entry {
        DecodeEntry::Document => String::from_str("document"),
        DecodeEntry::Group(group) => numbered("group[", group, "]"),
        DecodeEntry::Subgroup { group, subgroup } => {
            let mut s = numbered("group[", group, "].subgroup[");
            crate::text::push_decimal(&mut s, subgroup);
            s.append("]");
            s
        },
        DecodeEntry::Resource { group, resource } => {
            let mut s = numbered("group[", group, "].resource[");
            crate::text::push_decimal(&mut s, resource);
            s.append("]");
            s
        },
    }
}

/// How a borrowed decode charges its budget: records that hold slices, and
/// strings that are not copied.
pub open spec fn borrowed_mode() -> DecodeMode {
    DecodeMode {
        group_record_size: vstd::layout::size_of::<RawResourceGroup<&'static [u8]>>() as usize,
        subgroup_record_size: vstd::layout::size_of::<RawSubgroup<&'static [u8]>>() as usize,
        resource_record_size: vstd::layout::size_of::<RawResource<&'static [u8]>>() as usize,
        charge_strings: false,
    }
}

/// How a stream decode charges its budget: records that own their strings,
/// and string bytes that are copied.
pub open spec fn owned_mode() -> DecodeMode {
    DecodeMode {
        group_record_size: vstd::layout::size_of::<RawResourceGroup<Vec<u8>>>() as usize,
        subgroup_record_size: vstd::layout::size_of::<RawSubgroup<Vec<u8>>>() as usize,
        resource_record_size: vstd::layout::size_of::<RawResource<Vec<u8>>>() as usize,
        charge_strings: true,
    }
}

/// Decode a complete wire-faithful NEWTON document without copying strings,
/// using caller-provided limits.
pub fn raw_from_bytes_borrowed_with_limits<'a>(bytes: &'a [u8], limits: DecodeLimits) -> (r: Result<
    BorrowedRawResourceManifest<'a>,
    NewtonError,
>)
    requires
        bytes@.len() <= isize::MAX,
    ensures
        decode_matches(
            r,
            decode_complete(bytes@, limits, borrowed_mode()),
            bytes@.len() as int,
            reaches_group_records(bytes@, limits, borrowed_mode()),
        ),
        r matches Err(e) ==> located(e@, bytes@.len() as int),
{
    proof {
        decode_errors_are_located(bytes@, limits, borrowed_mode());
    }
    let mode = DecodeMode {
        group_record_size: core::mem::size_of::<RawResourceGroup<&'a [u8]>>(),
        subgroup_record_size: core::mem::size_of::<RawSubgroup<&'a [u8]>>(),
        resource_record_size: core::mem::size_of::<RawResource<&'a [u8]>>(),
        charge_strings: false,
    };
    let mut decoder = Decoder::new(bytes, limits, mode);
    let decoded: BorrowedRawResourceManifest<'a> = match decoder.decode() {
        Ok(decoded) => decoded,
        Err(error) => {
            let r = decoder.contextualize(error);
            proof {
                if reservation_refusal(error@, false) {
                    assert(refused_reservation(r@, bytes@.len() as int, false));
                }
            }
            return Err(r);
        },
    };
    let consumed = decoder.position;
    if consumed != bytes.len() {
        decoder.set_context(DecodeEntry::Document, "trailing bytes");
        return Err(decoder.contextualize(NewtonError::TrailingData { remaining: bytes.len() - consumed }));
    }
    Ok(decoded)
}

/// Decode a complete wire-faithful NEWTON document without copying strings.
pub fn raw_from_bytes_borrowed<'a>(bytes: &'a [u8]) -> (r: Result<
    BorrowedRawResourceManifest<'a>,
    NewtonError,
>)
    requires
        bytes@.len() <= isize::MAX,
    ensures
        decode_matches(
            r,
            decode_complete(bytes@, default_limits(), borrowed_mode()),
            bytes@.len() as int,
            reaches_group_records(bytes@, default_limits(), borrowed_mode()),
        ),
        r matches Err(e) ==> located(e@, bytes@.len() as int),
{
    raw_from_bytes_borrowed_with_limits(bytes, DecodeLimits::default())
}

/// Decode the document at the start of `bytes` as a stream decoder does:
/// trailing bytes are left unread, and each string is copied out of the
/// input as it is read, its bytes charged to the allocation budget.
pub(crate) fn raw_decode_stream_prefix(bytes: &[u8], limits: DecodeLimits) -> (r: Result<
    OwnedRawResourceManifest,
    NewtonError,
>)
    requires
        bytes@.len() <= isize::MAX,
    ensures
        match r {
            Ok(m) => decode_prefix(bytes@, limits, owned_mode()) matches Ok((v, _)) && m@ == v,
            Err(e) => (decode_prefix(bytes@, limits, owned_mode()) matches Err(x) && e@ == x) || (
            reaches_group_records(bytes@, limits, owned_mode()) && refused_reservation(
                e@,
                bytes@.len() as int,
                true,
            )),
        },
        r matches Err(e) ==> located(e@, bytes@.len() as int),
{
    proof {
        decode_errors_are_located(bytes@, limits, owned_mode());
    }
    let mode = DecodeMode {
        group_record_size: core::mem::size_of::<RawResourceGroup<Vec<u8>>>(),
        subgroup_record_size: core::mem::size_of::<RawSubgroup<Vec<u8>>>(),
        resource_record_size: core::mem::size_of::<RawResource<Vec<u8>>>(),
        charge_strings: true,
    };
    let mut decoder = Decoder::new(bytes, limits, mode);
    match decoder.decode() {
        Ok(decoded) => Ok(decoded),
        Err(error) => {
            let r = decoder.contextualize(error);
            proof {
                if reservation_refusal(error@, true) {
                    assert(refused_reservation(r@, bytes@.len() as int, true));
                }
            }
            Err(r)
        },
    }
}

} // verus!
