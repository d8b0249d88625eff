//! Reader and writer for PopCap/PvZ2 NEWTON resource manifests.
//!
//! NEWTON stores the resource groups, slots, paths, and atlas geometry used by
//! Plants vs. Zombies 2. This crate exposes a typed model and byte-level
//! encoders and decoders. A separate raw model preserves malformed or
//! non-canonical wire data, while validation profiles check references and
//! known PvZ2 runtime constraints.
pub mod binary;
pub mod error;
pub mod memory;
pub mod properties;
pub mod raw;
pub mod text;
pub mod types;
pub mod validation;

pub use binary::parse::DecodeLimits;
pub use binary::reader::{raw_from_bytes_borrowed, raw_from_bytes_borrowed_with_limits};
pub use binary::writer::{
    encode_newton, encode_raw_newton, encoded_len, raw_encoded_len, validate_encoding,
};
pub use error::{NewtonError, Result};
pub use raw::{
    BorrowedRawResourceManifest, OwnedRawResourceManifest, RawResource, RawResourceGroup,
    RawResourceManifest, RawSubgroup, WireBytes,
};
pub use types::{
    CompositeGroup, Resource, ResourceGroup, ResourceManifest, ResourceType, SimpleGroup, Subgroup,
};
pub use validation::{
    ValidationCode, ValidationIssue, ValidationProfile, ValidationReport, ValidationSeverity,
};

use binary::canonical::{document_len, document_wire};
use binary::roundtrip::decoded_groups_were_reserved;
use binary::format::{raw_document_len, raw_document_wire};
use binary::parse::{decode_complete, decode_prefix, reaches_group_records};
use binary::reader::{
    borrowed_mode, default_limits, lemma_refused_root, located, owned_mode,
    raw_decode_stream_prefix, refused_reservation,
};
use error::ErrorView;
use memory::reserve_exact;
use raw::{
    alloc_sizes, conv_matches, convert_manifest, convert_raw, ensure_semantic_allocation_budget,
    semantic_budget,
};
use raw::RawManifestView;
use types::ManifestView;
use vstd::prelude::*;

verus! {

/// What decoding a complete semantic document gives: the raw decode, the
/// allocation estimate, then the semantic checks.
pub open spec fn semantic_decode(bytes: Seq<u8>, limits: DecodeLimits) -> core::result::Result<
    ManifestView,
    ErrorView,
> {
    match decode_complete(bytes, limits, borrowed_mode()) {
        Err(e) => Err(e),
        Ok(raw) => match semantic_budget(raw, limits.max_allocation_bytes, alloc_sizes::<&'static [u8]>()) {
            Err(e) => Err(e),
            Ok(_) => convert_manifest(raw),
        },
    }
}

/// What decoding a semantic document from the start of a stream gives.
pub open spec fn semantic_decode_prefix(bytes: Seq<u8>, limits: DecodeLimits) -> core::result::Result<
    ManifestView,
    ErrorView,
> {
    match decode_prefix(bytes, limits, owned_mode()) {
        Err(e) => Err(e),
        Ok((raw, _)) => match semantic_budget(raw, limits.max_allocation_bytes, alloc_sizes::<Vec<u8>>()) {
            Err(e) => Err(e),
            Ok(_) => convert_manifest(raw),
        },
    }
}

/// Decode one complete NEWTON document from a byte slice, rejecting
/// trailing bytes.
pub fn from_bytes(bytes: &[u8]) -> (r: Result<ResourceManifest>)
    requires
        bytes@.len() <= isize::MAX,
    ensures
        conv_matches(
            r,
            semantic_decode(bytes@, default_limits()),
            reaches_group_records(bytes@, default_limits(), borrowed_mode()),
        ),
{
    from_bytes_with_limits(bytes, DecodeLimits::default())
}

/// Decode one complete NEWTON document using caller-provided allocation limits.
pub fn from_bytes_with_limits(bytes: &[u8], limits: DecodeLimits) -> (r: Result<ResourceManifest>)
    requires
        bytes@.len() <= isize::MAX,
    ensures
        conv_matches(
            r,
            semantic_decode(bytes@, limits),
            reaches_group_records(bytes@, limits, borrowed_mode()),
        ),
{
    let raw = match raw_from_bytes_borrowed_with_limits(bytes, limits) {
        Ok(raw) => raw,
        Err(e) => {
            proof {
                if refused_reservation(e@, bytes@.len() as int, false) {
                    lemma_refused_root(e@, bytes@.len() as int, false);
                }
            }
            return Err(e);
        },
    };
    proof {
        decoded_groups_were_reserved(bytes@, limits, borrowed_mode());
    }
    ensure_semantic_allocation_budget(&raw, limits.max_allocation_bytes)?;
    convert_raw(raw)
}

/// Decode the raw document at the start of `bytes`, as read from a stream,
/// with caller-provided limits. Bytes after the document are left unread.
pub fn raw_from_reader_with_limits(bytes: &[u8], limits: DecodeLimits) -> (r: Result<
    OwnedRawResourceManifest,
>)
    requires
        bytes@.len() <= isize::MAX,
    ensures
        match r {
            Ok(m) => decode_prefix(bytes@, limits, owned_mode()) matches Ok((v, _)) && m@ == v,
            Err(e) => (decode_prefix(bytes@, limits, owned_mode()) matches Err(x) && e@ == x) || (
            reaches_group_records(bytes@, limits, owned_mode()) && refused_reservation(
                e@,
                bytes@.len() as int,
                true,
            )),
        },
        r matches Err(e) ==> located(e@, bytes@.len() as int),
{
    raw_decode_stream_prefix(bytes, limits)
}

/// Decode the raw document at the start of `bytes`, as read from a stream,
/// with default limits.
pub fn decode_raw_newton(bytes: &[u8]) -> (r: Result<OwnedRawResourceManifest>)
    requires
        bytes@.len() <= isize::MAX,
    ensures
        match r {
            Ok(m) => decode_prefix(bytes@, default_limits(), owned_mode()) matches Ok((v, _)) && m@ == v,
            Err(e) => (decode_prefix(bytes@, default_limits(), owned_mode()) matches Err(x) && e@ == x)
                || (reaches_group_records(bytes@, default_limits(), owned_mode())
                && refused_reservation(e@, bytes@.len() as int, true)),
        },
        r matches Err(e) ==> located(e@, bytes@.len() as int),
{
    raw_from_reader_with_limits(bytes, DecodeLimits::default())
}

/// Decode the semantic document at the start of `bytes`, as read from a
/// stream, with caller-provided limits.
pub fn from_reader_with_limits(bytes: &[u8], limits: DecodeLimits) -> (r: Result<ResourceManifest>)
    requires
        bytes@.len() <= isize::MAX,
    ensures
        conv_matches(
            r,
            semantic_decode_prefix(bytes@, limits),
            reaches_group_records(bytes@, limits, owned_mode()),
        ),
{
    let raw = match raw_from_reader_with_limits(bytes, limits) {
        Ok(raw) => raw,
        Err(e) => {
            proof {
                if refused_reservation(e@, bytes@.len() as int, true) {
                    lemma_refused_root(e@, bytes@.len() as int, true);
                }
            }
            return Err(e);
        },
    };
    proof {
        decoded_groups_were_reserved(bytes@, limits, owned_mode());
    }
    ensure_semantic_allocation_budget(&raw, limits.max_allocation_bytes)?;
    convert_raw(raw)
}

/// Decode the semantic document at the start of `bytes`, as read from a
/// stream, with default limits.
pub fn decode_newton(bytes: &[u8]) -> (r: Result<ResourceManifest>)
    requires
        bytes@.len() <= isize::MAX,
    ensures
        conv_matches(
            r,
            semantic_decode_prefix(bytes@, default_limits()),
            reaches_group_records(bytes@, default_limits(), owned_mode()),
        ),
{
    from_reader_with_limits(bytes, DecodeLimits::default())
}

/// Decode the semantic document at the start of `bytes`, as read from a
/// stream, with default limits.
pub fn from_reader(bytes: &[u8]) -> (r: Result<ResourceManifest>)
    requires
        bytes@.len() <= isize::MAX,
    ensures
        conv_matches(
            r,
            semantic_decode_prefix(bytes@, default_limits()),
            reaches_group_records(bytes@, default_limits(), owned_mode()),
        ),
{
    decode_newton(bytes)
}

/// What encoding a document into a new byte vector gives: its wire bytes,
/// or a refusal of the allocator to make room for them, or the reason it
/// cannot be encoded.
pub open spec fn encoding_outcome(m: ManifestView, r: Result<Vec<u8>>) -> bool {
    match document_len(m) {
        Ok(_) => match r {
            Ok(b) => b@ == document_wire(m),
            Err(e) => e@ == (ErrorView::AllocationFailed { field: "encoded document"@ }),
        },
        Err(e) => r matches Err(x) && x@ == e,
    }
}

/// What encoding a raw document into a new byte vector gives, in the same
/// way as [`encoding_outcome`].
pub open spec fn raw_encoding_outcome(m: RawManifestView, r: Result<Vec<u8>>) -> bool {
    match raw_document_len(m) {
        Ok(_) => match r {
            Ok(b) => b@ == raw_document_wire(m),
            Err(e) => e@ == (ErrorView::AllocationFailed { field: "encoded raw document"@ }),
        },
        Err(e) => r matches Err(x) && x@ == e,
    }
}

/// Encode a NEWTON document into a new byte vector.
pub fn to_bytes(manifest: &ResourceManifest) -> (r: Result<Vec<u8>>)
    ensures
        encoding_outcome(manifest@, r),
{
    let length = encoded_len(manifest)?;
    let mut output: Vec<u8> = Vec::new();
    reserve_exact(&mut output, length, "encoded document")?;
    encode_newton(manifest, &mut output)?;
    assert(output@ =~= document_wire(manifest@));
    Ok(output)
}

/// Encode a NEWTON document, appending it to `out`.
pub fn to_writer(manifest: &ResourceManifest, out: &mut Vec<u8>) -> (r: Result<()>)
    ensures
        match document_len(manifest@) {
            Ok(_) => r is Ok && final(out)@ == old(out)@ + document_wire(manifest@),
            Err(e) => (r matches Err(x) && x@ == e) && final(out)@ == old(out)@,
        },
{
    encode_newton(manifest, out)
}

/// Decode one complete wire-faithful NEWTON document into owned byte strings.
pub fn raw_from_bytes(bytes: &[u8]) -> (r: Result<OwnedRawResourceManifest>)
    requires
        bytes@.len() <= isize::MAX,
    ensures
        conv_matches(
            r,
            decode_complete(bytes@, default_limits(), borrowed_mode()),
            reaches_group_records(bytes@, default_limits(), borrowed_mode()),
        ),
{
    let raw = match raw_from_bytes_borrowed(bytes) {
        Ok(raw) => raw,
        Err(e) => {
            proof {
                if refused_reservation(e@, bytes@.len() as int, false) {
                    lemma_refused_root(e@, bytes@.len() as int, false);
                }
            }
            return Err(e);
        },
    };
    proof {
        decoded_groups_were_reserved(bytes@, default_limits(), borrowed_mode());
    }
    raw.try_into_owned()
}

/// Encode a wire-faithful NEWTON document into a new byte vector.
pub fn raw_to_bytes<B: WireBytes>(manifest: &RawResourceManifest<B>) -> (r: Result<Vec<u8>>)
    ensures
        raw_encoding_outcome(manifest@, r),
{
    let length = raw_encoded_len(manifest)?;
    let mut output: Vec<u8> = Vec::new();
    reserve_exact(&mut output, length, "encoded raw document")?;
    encode_raw_newton(manifest, &mut output)?;
    assert(output@ =~= raw_document_wire(manifest@));
    Ok(output)
}

} // verus!
