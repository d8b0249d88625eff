use newton_manifest::{
    raw_from_bytes, raw_from_bytes_borrowed, raw_from_bytes_borrowed_with_limits,
    raw_encoded_len, raw_from_reader_with_limits, raw_to_bytes, DecodeLimits, NewtonError,
    RawResource,
    RawResourceGroup, RawResourceManifest, RawSubgroup,
};

#[test]
fn raw_layer_round_trips_runtime_style_noncanonical_flags() {
    let manifest = RawResourceManifest {
        slot_count: -1,
        groups: vec![RawResourceGroup {
            group_type: 9,
            resolution: -7,
            has_id: 2,
            has_parent: 0,
            id: None::<Vec<u8>>,
            parent: None,
            subgroups: Vec::new(),
            resources: Vec::new(),
        }],
    };

    let bytes = raw_to_bytes(&manifest).unwrap();
    let decoded = raw_from_bytes_borrowed(&bytes).unwrap();
    assert_eq!(decoded.clone().try_into_owned().unwrap(), manifest);
    assert_eq!(raw_to_bytes(&decoded).unwrap(), bytes);
}

#[test]
fn cumulative_string_budget_is_enforced() {
    let manifest = RawResourceManifest {
        slot_count: 0,
        groups: vec![RawResourceGroup {
            group_type: 1,
            resolution: 0,
            has_id: 1,
            has_parent: 1,
            id: Some(vec![b'A'; 8]),
            parent: Some(vec![b'B'; 8]),
            subgroups: Vec::new(),
            resources: Vec::new(),
        }],
    };
    let bytes = raw_to_bytes(&manifest).unwrap();
    let limits = DecodeLimits {
        max_total_string_bytes: 15,
        ..DecodeLimits::default()
    };
    let error = raw_from_bytes_borrowed_with_limits(&bytes, limits).unwrap_err();
    assert!(matches!(
        error.root_cause(),
        NewtonError::TotalStringLimitExceeded {
            requested: 16,
            limit: 15
        }
    ));
}

#[test]
fn allocation_budget_is_enforced_before_vector_reservation() {
    let bytes = [0_i32.to_le_bytes(), 1_i32.to_le_bytes()].concat();
    let limits = DecodeLimits {
        max_allocation_bytes: 0,
        ..DecodeLimits::default()
    };
    let error = raw_from_bytes_borrowed_with_limits(&bytes, limits).unwrap_err();
    assert!(matches!(
        error.root_cause(),
        NewtonError::AllocationLimitExceeded { limit: 0, .. }
    ));
}

fn mixed_raw_manifest() -> RawResourceManifest {
    RawResourceManifest {
        slot_count: 3,
        groups: vec![
            RawResourceGroup {
                group_type: 1,
                resolution: 0,
                has_id: 1,
                has_parent: 0,
                id: Some(b"Top".to_vec()),
                parent: None,
                subgroups: vec![RawSubgroup {
                    resolution: 768,
                    id: b"Child".to_vec(),
                }],
                resources: vec![RawResource {
                    resource_type: 200,
                    slot: -5,
                    width: -1,
                    height: 2,
                    x: 3,
                    y: 4,
                    ax: 5,
                    ay: 6,
                    aw: 7,
                    ah: 8,
                    cols: 9,
                    rows: 10,
                    atlas: 7,
                    has_id: 1,
                    has_path: 0,
                    has_parent: 1,
                    id: Some(vec![0xfe, 0xff]),
                    path: None,
                    parent: Some(b"Atlas".to_vec()),
                }],
            },
            RawResourceGroup {
                group_type: 2,
                resolution: 1536,
                has_id: 1,
                has_parent: 1,
                id: Some(b"Child".to_vec()),
                parent: Some(b"Top".to_vec()),
                subgroups: Vec::new(),
                resources: Vec::new(),
            },
        ],
    }
}

#[test]
fn raw_mixed_document_round_trips_through_owned_decoding() {
    let manifest = mixed_raw_manifest();
    let bytes = raw_to_bytes(&manifest).unwrap();
    assert_eq!(newton_manifest::raw_encoded_len(&manifest).unwrap(), bytes.len());
    let decoded = raw_from_bytes(&bytes).unwrap();
    assert_eq!(decoded, manifest);
    assert_eq!(raw_to_bytes(&decoded).unwrap(), bytes);
}

#[test]
fn raw_stream_decoding_stops_after_the_document() {
    let manifest = mixed_raw_manifest();
    let mut bytes = raw_to_bytes(&manifest).unwrap();
    bytes.extend_from_slice(b"tail");
    let decoded = raw_from_reader_with_limits(&bytes, DecodeLimits::default()).unwrap();
    assert_eq!(decoded, manifest);
}

#[test]
fn raw_encoding_rejects_a_flag_without_its_string() {
    let mut manifest = mixed_raw_manifest();
    manifest.groups[0].has_parent = 1;
    let error = raw_to_bytes(&manifest).unwrap_err();
    assert!(matches!(
        error,
        NewtonError::InconsistentPresence {
            field: "group parent",
            flag: 1,
            has_value: false
        }
    ));
    let mut out = vec![1_u8];
    assert!(newton_manifest::encode_raw_newton(&manifest, &mut out).is_err());
    assert_eq!(out, vec![1_u8]);
}

#[test]
fn raw_decoding_rejects_a_negative_group_count() {
    let bytes = [0_i32.to_le_bytes(), (-1_i32).to_le_bytes()].concat();
    let error = raw_from_bytes(&bytes).unwrap_err();
    assert!(matches!(
        error.root_cause(),
        NewtonError::NegativeValue {
            field: "group count",
            value: -1
        }
    ));
}

#[test]
fn raw_decoding_enforces_the_per_string_limit() {
    let manifest = mixed_raw_manifest();
    let bytes = raw_to_bytes(&manifest).unwrap();
    let limits = DecodeLimits {
        max_string_bytes: 2,
        ..DecodeLimits::default()
    };
    let error = raw_from_bytes_borrowed_with_limits(&bytes, limits).unwrap_err();
    assert!(matches!(
        error.root_cause(),
        NewtonError::StringLimitExceeded {
            length: 3,
            limit: 2
        }
    ));
}

#[test]
fn raw_decoding_enforces_the_total_entry_limit() {
    let manifest = mixed_raw_manifest();
    let bytes = raw_to_bytes(&manifest).unwrap();
    let limits = DecodeLimits {
        max_total_entries: 3,
        ..DecodeLimits::default()
    };
    let error = raw_from_bytes_borrowed_with_limits(&bytes, limits).unwrap_err();
    assert!(matches!(
        error.root_cause(),
        NewtonError::CountLimitExceeded {
            field: "total entry",
            count: 4,
            limit: 3
        }
    ));
}

#[test]
fn trailing_bytes_are_reported_where_the_document_ends() {
    let bytes = raw_to_bytes(&mixed_raw_manifest()).unwrap();
    let document_len = bytes.len();
    let mut longer = bytes.clone();
    longer.extend_from_slice(&[7, 7, 7]);
    let error = raw_from_bytes_borrowed(&longer).unwrap_err();
    match error {
        NewtonError::DecodeContext {
            offset,
            context,
            field,
            source,
        } => {
            assert_eq!(offset, document_len as u64);
            assert_eq!(context, "document");
            assert_eq!(field, "trailing bytes");
            assert!(matches!(*source, NewtonError::TrailingData { remaining: 3 }));
        }
        other => panic!("unexpected error {other:?}"),
    }
}

#[test]
fn an_empty_document_decodes_in_every_layer() {
    let bytes = [0_i32.to_le_bytes(), 0_i32.to_le_bytes()].concat();
    let borrowed = raw_from_bytes_borrowed(&bytes).unwrap();
    assert_eq!(borrowed.slot_count, 0);
    assert!(borrowed.groups.is_empty());
    let owned = raw_from_bytes(&bytes).unwrap();
    assert!(owned.groups.is_empty());
    let streamed = raw_from_reader_with_limits(&bytes, DecodeLimits::default()).unwrap();
    assert!(streamed.groups.is_empty());
}

#[test]
fn a_negative_group_count_is_located_at_the_count() {
    let bytes = [0_i32.to_le_bytes(), (-1_i32).to_le_bytes()].concat();
    let error = raw_from_bytes_borrowed_with_limits(&bytes, DecodeLimits::default()).unwrap_err();
    match error {
        NewtonError::DecodeContext {
            offset,
            context,
            field,
            source,
        } => {
            assert_eq!(offset, 4);
            assert_eq!(context, "document");
            assert_eq!(field, "group count");
            assert!(matches!(
                *source,
                NewtonError::NegativeValue {
                    field: "group count",
                    value: -1
                }
            ));
        }
        other => panic!("unexpected error {other:?}"),
    }
}

#[test]
fn re_encoding_a_decoded_raw_document_gives_its_bytes() {
    let bytes = raw_to_bytes(&mixed_raw_manifest()).unwrap();
    let decoded = raw_from_bytes_borrowed(&bytes).unwrap();
    assert_eq!(raw_to_bytes(&decoded).unwrap(), bytes);
}

#[test]
fn encoded_length_is_the_sum_of_the_record_parts() {
    let manifest = mixed_raw_manifest();
    // 8 header bytes, 15 per group, 4 per subgroup, 49 per resource, and
    // 4 plus the length of each written string: "Top", "Child" (subgroup),
    // the two-byte resource ID, "Atlas", "Child", "Top".
    let strings = (4 + 3) + (4 + 5) + (4 + 2) + (4 + 5) + (4 + 5) + (4 + 3);
    let expected = 8 + 2 * 15 + 4 + 49 + strings;
    assert_eq!(raw_encoded_len(&manifest).unwrap(), expected);
    assert_eq!(raw_to_bytes(&manifest).unwrap().len(), expected);
}

#[test]
fn a_decoded_document_reports_its_flags_and_length() {
    let bytes = raw_to_bytes(&mixed_raw_manifest()).unwrap();
    let decoded = raw_from_reader_with_limits(&bytes, DecodeLimits::default()).unwrap();
    let resource = &decoded.groups[0].resources[0];
    assert!(resource.id.is_some() && resource.path.is_none() && resource.parent.is_some());
    assert_eq!(raw_encoded_len(&decoded).unwrap(), bytes.len());
}
