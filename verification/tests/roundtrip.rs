use newton_manifest::{
    encode_newton, encoded_len, from_bytes, from_bytes_with_limits, raw_to_bytes, to_bytes,
    CompositeGroup, DecodeLimits, NewtonError, RawResource, RawResourceGroup, RawResourceManifest,
    Resource, ResourceGroup, ResourceManifest, ResourceType, SimpleGroup, Subgroup,
};

fn sample_manifest() -> ResourceManifest {
    ResourceManifest {
        slot_count: 2,
        groups: vec![
            ResourceGroup::Composite(CompositeGroup {
                id: "Main".into(),
                resolution: None,
                parent: None,
                subgroups: vec![Subgroup {
                    id: "Main_Common".into(),
                    resolution: Some(1536),
                }],
            }),
            ResourceGroup::Simple(SimpleGroup {
                id: "Main_Common".into(),
                resolution: Some(1536),
                parent: Some("Main".into()),
                resources: vec![Resource {
                    resource_type: ResourceType::Image,
                    slot: 1,
                    id: "IMAGE_EXAMPLE".into(),
                    path: "images\\example".into(),
                    width: None,
                    height: None,
                    x: Some(0),
                    y: Some(0),
                    ax: Some(4),
                    ay: Some(8),
                    aw: Some(32),
                    ah: Some(16),
                    cols: None,
                    rows: None,
                    atlas: false,
                    parent: Some("ATLAS_EXAMPLE".into()),
                }],
            }),
        ],
    }
}

fn file_resource(slot: u32, id: &str) -> Resource {
    Resource {
        resource_type: ResourceType::File,
        slot,
        id: id.into(),
        path: id.into(),
        width: None,
        height: None,
        x: None,
        y: None,
        ax: None,
        ay: None,
        aw: None,
        ah: None,
        cols: None,
        rows: None,
        atlas: false,
        parent: None,
    }
}

#[test]
fn binary_round_trip_preserves_manifest() {
    let manifest = sample_manifest();
    let encoded = to_bytes(&manifest).expect("sample manifest should encode");
    assert_eq!(encoded_len(&manifest).unwrap(), encoded.len());
    let decoded = from_bytes(&encoded).expect("sample manifest should decode");
    assert_eq!(decoded, manifest);
}

#[test]
fn encoding_is_preflighted_before_the_first_write() {
    let manifest = ResourceManifest {
        slot_count: u32::MAX,
        groups: Vec::new(),
    };
    let mut writer: Vec<u8> = Vec::new();
    assert!(matches!(
        encode_newton(&manifest, &mut writer),
        Err(NewtonError::IntegerOutOfRange {
            field: "slot count",
            ..
        })
    ));
    assert_eq!(writer.len(), 0);
}

#[test]
fn rejects_trailing_bytes() {
    let mut encoded = to_bytes(&sample_manifest()).unwrap();
    encoded.push(0);
    let error = from_bytes(&encoded).unwrap_err();
    assert!(matches!(
        error.root_cause(),
        NewtonError::TrailingData { remaining: 1 }
    ));
}

#[test]
fn rejects_non_boolean_flags() {
    let mut encoded = to_bytes(&ResourceManifest {
        slot_count: 0,
        groups: vec![ResourceGroup::Composite(CompositeGroup {
            id: String::new(),
            resolution: None,
            parent: None,
            subgroups: Vec::new(),
        })],
    })
    .unwrap();
    encoded[22] = 2;
    let error = from_bytes(&encoded).unwrap_err();
    assert!(matches!(
        error.root_cause(),
        NewtonError::InvalidBoolean {
            field: "group parent flag",
            value: 2
        }
    ));
}

#[test]
fn rejects_a_missing_required_group_id() {
    let encoded = raw_to_bytes(&RawResourceManifest {
        slot_count: 0,
        groups: vec![RawResourceGroup {
            group_type: 1,
            resolution: 0,
            has_id: 0,
            has_parent: 0,
            id: None::<Vec<u8>>,
            parent: None,
            subgroups: Vec::new(),
            resources: Vec::new(),
        }],
    })
    .unwrap();
    let error = from_bytes(&encoded).unwrap_err();
    assert!(matches!(
        error.root_cause(),
        NewtonError::MissingRequiredString { field: "group id" }
    ));
}

#[test]
fn writes_resource_id_and_path_presence_flags() {
    let manifest = ResourceManifest {
        slot_count: 1,
        groups: vec![ResourceGroup::Simple(SimpleGroup {
            id: String::new(),
            resolution: None,
            parent: None,
            resources: vec![Resource {
                resource_type: ResourceType::File,
                slot: 0,
                id: "ID".into(),
                path: "路径".into(),
                width: None,
                height: None,
                x: None,
                y: None,
                ax: None,
                ay: None,
                aw: None,
                ah: None,
                cols: None,
                rows: None,
                atlas: false,
                parent: None,
            }],
        })],
    };

    let encoded = to_bytes(&manifest).unwrap();
    let resource_offset = 27;
    assert_eq!(encoded[resource_offset + 0x2e], 1);
    assert_eq!(encoded[resource_offset + 0x2f], 1);
    assert_eq!(encoded[resource_offset + 0x30], 0);
    assert_eq!(from_bytes(&encoded).unwrap(), manifest);
}

#[test]
fn rejects_missing_required_resource_strings() {
    let raw_resource = RawResource {
        resource_type: 4,
        slot: 0,
        width: 0,
        height: 0,
        x: i32::MAX,
        y: i32::MAX,
        ax: 0,
        ay: 0,
        aw: 0,
        ah: 0,
        cols: 1,
        rows: 1,
        atlas: 0,
        has_id: 0,
        has_path: 1,
        has_parent: 0,
        id: None,
        path: Some(b"PATH".to_vec()),
        parent: None,
    };
    let raw_manifest = |resource| RawResourceManifest {
        slot_count: 1,
        groups: vec![RawResourceGroup {
            group_type: 2,
            resolution: 0,
            has_id: 1,
            has_parent: 0,
            id: Some(Vec::new()),
            parent: None,
            subgroups: Vec::new(),
            resources: vec![resource],
        }],
    };
    let missing_id = raw_to_bytes(&raw_manifest(raw_resource.clone())).unwrap();
    let error = from_bytes(&missing_id).unwrap_err();
    assert!(matches!(
        error.root_cause(),
        NewtonError::MissingRequiredString {
            field: "resource id"
        }
    ));

    let missing_path_resource = RawResource {
        has_id: 1,
        has_path: 0,
        id: Some(b"ID".to_vec()),
        path: None,
        ..raw_resource
    };
    let missing_path = raw_to_bytes(&raw_manifest(missing_path_resource)).unwrap();
    let error = from_bytes(&missing_path).unwrap_err();
    assert!(matches!(
        error.root_cause(),
        NewtonError::MissingRequiredString {
            field: "resource path"
        }
    ));
}

#[test]
fn string_lengths_count_utf8_bytes() {
    let manifest = ResourceManifest {
        slot_count: 0,
        groups: vec![ResourceGroup::Composite(CompositeGroup {
            id: "主组".into(),
            resolution: None,
            parent: None,
            subgroups: Vec::new(),
        })],
    };
    let encoded = to_bytes(&manifest).unwrap();

    assert_eq!(&encoded[23..27], &6_i32.to_le_bytes());
    assert_eq!(from_bytes(&encoded).unwrap(), manifest);
}

#[test]
fn rejects_negative_string_lengths() {
    let mut encoded = to_bytes(&ResourceManifest {
        slot_count: 0,
        groups: vec![ResourceGroup::Composite(CompositeGroup {
            id: "Main".into(),
            resolution: None,
            parent: None,
            subgroups: Vec::new(),
        })],
    })
    .unwrap();
    encoded[23..27].copy_from_slice(&(-1_i32).to_le_bytes());

    let error = from_bytes(&encoded).unwrap_err();
    assert!(matches!(
        error.root_cause(),
        NewtonError::NegativeValue {
            field: "group id",
            value: -1
        }
    ));
}

#[test]
fn enforces_group_allocation_limit_before_allocating() {
    let encoded = to_bytes(&sample_manifest()).unwrap();
    let limits = DecodeLimits {
        max_groups: 1,
        ..DecodeLimits::default()
    };
    let error = from_bytes_with_limits(&encoded, limits).unwrap_err();
    assert!(matches!(
        error.root_cause(),
        NewtonError::CountLimitExceeded {
            field: "group count",
            count: 2,
            limit: 1
        }
    ));
}

#[test]
fn generated_simple_group_round_trips() {
    let mut resources = Vec::new();
    for slot in 0..32_u32 {
        let kind = ResourceType::try_from((slot % 7 + 1) as u8).unwrap();
        let atlas = kind == ResourceType::Image && slot % 2 == 0;
        let mut resource = file_resource(slot, &format!("ID_{slot}_é"));
        resource.resource_type = kind;
        resource.path = format!("path\\{slot}");
        resource.atlas = atlas;
        if atlas {
            resource.width = Some(64);
            resource.height = Some(64);
        }
        resources.push(resource);
    }
    let manifest = ResourceManifest {
        slot_count: 32,
        groups: vec![ResourceGroup::Simple(SimpleGroup {
            id: "Generated".into(),
            resolution: None,
            parent: None,
            resources,
        })],
    };
    let bytes = to_bytes(&manifest).unwrap();
    assert_eq!(from_bytes(&bytes).unwrap(), manifest);
    let mut streamed = Vec::new();
    newton_manifest::to_writer(&manifest, &mut streamed).unwrap();
    assert_eq!(streamed, bytes);
    assert_eq!(newton_manifest::decode_newton(&bytes).unwrap(), manifest);
}

#[test]
fn a_zero_dimension_is_written_as_absent() {
    let mut manifest = sample_manifest();
    if let ResourceGroup::Simple(group) = &mut manifest.groups[1] {
        group.resources[0].width = Some(0);
    }
    let decoded = from_bytes(&to_bytes(&manifest).unwrap()).unwrap();
    let ResourceGroup::Simple(group) = &decoded.groups[1] else {
        unreachable!();
    };
    assert_eq!(group.resources[0].width, None);
}

#[test]
fn encoding_rejects_numbers_beyond_the_signed_field() {
    let mut manifest = sample_manifest();
    if let ResourceGroup::Simple(group) = &mut manifest.groups[1] {
        group.resources[0].aw = Some(0x8000_0000);
    }
    assert!(matches!(
        encoded_len(&manifest),
        Err(NewtonError::IntegerOutOfRange {
            field: "resource atlas width",
            value: 0x8000_0000
        })
    ));
    assert!(newton_manifest::validate_encoding(&manifest).is_err());
    assert!(newton_manifest::validate_encoding(&sample_manifest()).is_ok());
}

#[test]
fn composite_group_with_resources_is_rejected() {
    let raw = RawResourceManifest {
        slot_count: 0,
        groups: vec![RawResourceGroup {
            group_type: 1,
            resolution: 0,
            has_id: 1,
            has_parent: 0,
            id: Some(b"Top".to_vec()),
            parent: None,
            subgroups: Vec::new(),
            resources: vec![RawResource {
                resource_type: 4,
                slot: 0,
                width: 0,
                height: 0,
                x: i32::MAX,
                y: i32::MAX,
                ax: 0,
                ay: 0,
                aw: 0,
                ah: 0,
                cols: 1,
                rows: 1,
                atlas: 0,
                has_id: 1,
                has_path: 1,
                has_parent: 0,
                id: Some(b"R".to_vec()),
                path: Some(b"P".to_vec()),
                parent: None,
            }],
        }],
    };
    let bytes = raw_to_bytes(&raw).unwrap();
    let error = from_bytes(&bytes).unwrap_err();
    match error.root_cause() {
        NewtonError::CompositeContainsResources { group, resources } => {
            assert_eq!(group, "Top");
            assert_eq!(*resources, 1);
        }
        other => panic!("unexpected error {other:?}"),
    }
    let converted = ResourceManifest::try_from(raw);
    assert!(converted.is_err());
}

#[test]
fn unknown_group_and_resource_types_are_rejected() {
    let raw = RawResourceManifest {
        slot_count: 0,
        groups: vec![RawResourceGroup {
            group_type: 3,
            resolution: 0,
            has_id: 1,
            has_parent: 0,
            id: Some(b"X".to_vec()),
            parent: None,
            subgroups: Vec::new(),
            resources: Vec::new(),
        }],
    };
    let error = from_bytes(&raw_to_bytes(&raw).unwrap()).unwrap_err();
    assert!(matches!(error.root_cause(), NewtonError::InvalidGroupType(3)));
    assert!(matches!(
        ResourceType::try_from(0_u8),
        Err(NewtonError::InvalidResourceType(0))
    ));
    assert!(matches!(ResourceType::try_from(7_u8), Ok(ResourceType::DecodedSoundBank)));
}

#[test]
fn semantic_errors_name_the_record() {
    let raw: RawResourceManifest = RawResourceManifest {
        slot_count: -3,
        groups: Vec::new(),
    };
    let error = from_bytes(&raw_to_bytes(&raw).unwrap()).unwrap_err();
    assert!(matches!(
        error.root_cause(),
        NewtonError::NegativeValue {
            field: "slot count",
            value: -3
        }
    ));
    let raw = RawResourceManifest {
        slot_count: 0,
        groups: vec![RawResourceGroup {
            group_type: 2,
            resolution: 0,
            has_id: 1,
            has_parent: 0,
            id: Some(vec![0xc3]),
            parent: None,
            subgroups: Vec::new(),
            resources: Vec::new(),
        }],
    };
    let error = newton_manifest::raw::convert_raw(raw).unwrap_err();
    match error {
        NewtonError::SemanticContext { context, source } => {
            assert_eq!(context, "group[0]");
            assert!(matches!(*source, NewtonError::InvalidUtf8 { field: "group id" }));
        }
        other => panic!("unexpected error {other:?}"),
    }
}

#[test]
fn simple_group_with_subgroups_is_rejected() {
    let raw = RawResourceManifest {
        slot_count: 0,
        groups: vec![RawResourceGroup {
            group_type: 2,
            resolution: 0,
            has_id: 1,
            has_parent: 0,
            id: Some(b"Leaf".to_vec()),
            parent: None,
            subgroups: vec![newton_manifest::RawSubgroup {
                resolution: 0,
                id: b"Other".to_vec(),
            }],
            resources: Vec::new(),
        }],
    };
    let error = from_bytes(&raw_to_bytes(&raw).unwrap()).unwrap_err();
    match error.root_cause() {
        NewtonError::SimpleContainsSubgroups { group, subgroups } => {
            assert_eq!(group, "Leaf");
            assert_eq!(*subgroups, 1);
        }
        other => panic!("unexpected error {other:?}"),
    }
}

#[test]
fn composite_manifest_example_round_trips() {
    let manifest = ResourceManifest {
        slot_count: 1,
        groups: vec![ResourceGroup::Composite(CompositeGroup {
            id: "ManifestGroup".into(),
            resolution: None,
            parent: None,
            subgroups: vec![Subgroup {
                id: "ManifestGroup_Common".into(),
                resolution: None,
            }],
        })],
    };
    let encoded = to_bytes(&manifest).unwrap();
    assert_eq!(from_bytes(&encoded).unwrap(), manifest);
}

#[test]
fn stream_decoding_reads_the_document_before_any_trailing_bytes() {
    let manifest = sample_manifest();
    let mut stream = Vec::new();
    newton_manifest::to_writer(&manifest, &mut stream).unwrap();
    let length = stream.len();
    stream.extend_from_slice(&[0xde, 0xad]);
    assert_eq!(newton_manifest::from_reader(&stream).unwrap(), manifest);
    assert_eq!(
        newton_manifest::from_reader_with_limits(&stream, DecodeLimits::default()).unwrap(),
        manifest
    );
    assert!(matches!(
        from_bytes(&stream).unwrap_err().root_cause(),
        NewtonError::TrailingData { remaining: 2 }
    ));
    assert_eq!(from_bytes(&stream[..length]).unwrap(), manifest);
}

#[test]
fn semantic_allocation_budget_is_checked_after_decoding() {
    let encoded = to_bytes(&sample_manifest()).unwrap();
    let mut limit = 0;
    while newton_manifest::raw_from_bytes_borrowed_with_limits(
        &encoded,
        DecodeLimits {
            max_allocation_bytes: limit,
            ..DecodeLimits::default()
        },
    )
    .is_err()
    {
        limit += 1;
    }
    let limits = DecodeLimits {
        max_allocation_bytes: limit,
        ..DecodeLimits::default()
    };
    let error = from_bytes_with_limits(&encoded, limits).unwrap_err();
    assert!(matches!(
        error,
        NewtonError::AllocationLimitExceeded { limit: l, .. } if l == limit
    ));
}

#[test]
fn encoding_into_a_nonempty_buffer_appends() {
    let manifest = sample_manifest();
    let mut out = vec![7_u8, 7];
    encode_newton(&manifest, &mut out).unwrap();
    assert_eq!(&out[..2], &[7, 7]);
    assert_eq!(&out[2..], to_bytes(&manifest).unwrap().as_slice());
}

#[test]
fn wider_limits_give_the_same_document() {
    let bytes = to_bytes(&sample_manifest()).unwrap();
    let narrow = DecodeLimits {
        max_groups: 2,
        ..DecodeLimits::default()
    };
    let decoded = from_bytes_with_limits(&bytes, narrow).unwrap();
    let wide = DecodeLimits {
        max_groups: 50,
        max_string_bytes: 4096,
        ..DecodeLimits::default()
    };
    assert_eq!(from_bytes_with_limits(&bytes, wide).unwrap(), decoded);
    assert_eq!(decoded, sample_manifest());
}
