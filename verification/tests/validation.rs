use newton_manifest::{
    CompositeGroup, Resource, ResourceGroup, ResourceManifest, ResourceType, SimpleGroup,
    Subgroup, ValidationCode, ValidationProfile, ValidationReport, ValidationSeverity,
};

fn file_resource(slot: u32, id: &str) -> Resource {
    Resource {
        resource_type: ResourceType::File,
        slot,
        id: id.into(),
        path: id.into(),
        width: None,
        height: None,
        x: None,
        y: None,
        ax: None,
        ay: None,
        aw: None,
        ah: None,
        cols: None,
        rows: None,
        atlas: false,
        parent: None,
    }
}

fn resolution_variants(groups: &[(&str, Option<u32>)]) -> ResourceManifest {
    let parent = "Group";
    let mut manifest_groups = vec![ResourceGroup::Composite(CompositeGroup {
        id: parent.into(),
        resolution: None,
        parent: None,
        subgroups: groups
            .iter()
            .map(|(id, resolution)| Subgroup {
                id: (*id).into(),
                resolution: *resolution,
            })
            .collect(),
    })];
    manifest_groups.extend(groups.iter().map(|(id, resolution)| {
        ResourceGroup::Simple(SimpleGroup {
            id: (*id).into(),
            resolution: *resolution,
            parent: Some(parent.into()),
            resources: vec![file_resource(0, "SHARED")],
        })
    }));
    ResourceManifest {
        slot_count: 1,
        groups: manifest_groups,
    }
}

fn simple(id: &str, resources: Vec<Resource>) -> ResourceGroup {
    ResourceGroup::Simple(SimpleGroup {
        id: id.into(),
        resolution: None,
        parent: None,
        resources,
    })
}

#[test]
fn reports_duplicate_slots_and_ids() {
    let manifest = ResourceManifest {
        slot_count: 2,
        groups: vec![ResourceGroup::Simple(SimpleGroup {
            id: "Simple".into(),
            resolution: None,
            parent: None,
            resources: vec![file_resource(0, "A"), file_resource(0, "A")],
        })],
    };
    let report = manifest.validate(ValidationProfile::Canonical);
    assert!(!report.is_valid());
    assert!(report
        .issues
        .iter()
        .any(|issue| issue.code == ValidationCode::DuplicateSlot));
    assert!(report
        .issues
        .iter()
        .any(|issue| issue.code == ValidationCode::DuplicateResourceId));
}

#[test]
fn reports_geometry_that_the_runtime_would_truncate() {
    let mut resource = file_resource(0, "SPRITE");
    resource.resource_type = ResourceType::Image;
    resource.parent = Some("ATLAS".into());
    resource.x = Some(0);
    resource.y = Some(0);
    resource.ax = Some(u16::MAX as u32 + 1);
    resource.aw = Some(1);
    resource.ah = Some(1);
    let manifest = ResourceManifest {
        slot_count: 1,
        groups: vec![ResourceGroup::Simple(SimpleGroup {
            id: "Simple".into(),
            resolution: None,
            parent: None,
            resources: vec![resource],
        })],
    };

    let report = manifest.validate(ValidationProfile::Pvz2Runtime);
    assert!(report.issues.iter().any(|issue| {
        issue.code == ValidationCode::GeometryOutOfRange
            && issue.severity == ValidationSeverity::Error
    }));
}

#[test]
fn allows_ids_and_slots_reused_by_resolution_alternatives() {
    let manifest = resolution_variants(&[("Group_1536", Some(1536)), ("Group_768", Some(768))]);

    let report = manifest.validate(ValidationProfile::Canonical);

    assert!(report.is_valid(), "{:#?}", report.issues);
}

#[test]
fn rejects_reuse_by_simultaneously_loadable_or_same_resolution_groups() {
    let manifest = resolution_variants(&[
        ("Group_1536_A", Some(1536)),
        ("Group_Common", None),
        ("Group_768", Some(768)),
        ("Group_1536_B", Some(1536)),
    ]);

    let report = manifest.validate(ValidationProfile::Canonical);

    assert!(report
        .issues
        .iter()
        .any(|issue| issue.code == ValidationCode::DuplicateResourceId));
    assert!(report
        .issues
        .iter()
        .any(|issue| issue.code == ValidationCode::DuplicateSlot));
}

#[test]
fn duplicate_reports_name_the_earlier_record_with_quoted_ids() {
    let manifest = ResourceManifest {
        slot_count: 2,
        groups: vec![
            simple("Simple", vec![file_resource(0, "A\"B")]),
            simple("Simple", vec![file_resource(0, "A\"B")]),
        ],
    };
    let report = manifest.validate(ValidationProfile::Pvz2Runtime);
    let messages: Vec<(&str, &str)> = report
        .issues
        .iter()
        .map(|issue| (issue.path.as_str(), issue.message.as_str()))
        .collect();
    assert_eq!(
        messages,
        vec![
            (
                "groups[1].id",
                "group ID \"Simple\" was already defined by groups[0]"
            ),
            (
                "groups[1].resources[0].id",
                "resource ID \"A\\\"B\" was already defined by groups[0].resources[0]"
            ),
            (
                "groups[1].resources[0].slot",
                "slot 0 was already used by groups[0].resources[0]"
            ),
        ]
    );
}

#[test]
fn slot_beyond_the_count_and_incomplete_table_are_reported() {
    let manifest = ResourceManifest {
        slot_count: 3,
        groups: vec![simple("G", vec![file_resource(5, "A")])],
    };
    let report = manifest.validate(ValidationProfile::Canonical);
    let found: Vec<(ValidationCode, &str, &str)> = report
        .issues
        .iter()
        .map(|issue| (issue.code, issue.path.as_str(), issue.message.as_str()))
        .collect();
    assert_eq!(
        found,
        vec![
            (
                ValidationCode::SlotOutOfRange,
                "groups[0].resources[0].slot",
                "slot 5 is outside slot_count 3"
            ),
            (
                ValidationCode::IncompleteSlotTable,
                "slot_count",
                "canonical slot table contains 1 unique resources but slot_count is 3"
            ),
        ]
    );
    let runtime = manifest.validate(ValidationProfile::Pvz2Runtime);
    assert_eq!(runtime.issues.len(), 1);
}

#[test]
fn broken_group_references_are_reported() {
    let manifest = ResourceManifest {
        slot_count: 0,
        groups: vec![
            ResourceGroup::Composite(CompositeGroup {
                id: "Top".into(),
                resolution: None,
                parent: Some("Nowhere".into()),
                subgroups: vec![
                    Subgroup {
                        id: "Missing".into(),
                        resolution: None,
                    },
                    Subgroup {
                        id: "Top".into(),
                        resolution: None,
                    },
                ],
            }),
            ResourceGroup::Simple(SimpleGroup {
                id: "Leaf".into(),
                resolution: None,
                parent: Some("Leaf".into()),
                resources: Vec::new(),
            }),
        ],
    };
    let report = manifest.validate(ValidationProfile::Pvz2Runtime);
    let found: Vec<(ValidationCode, &str, &str)> = report
        .issues
        .iter()
        .map(|issue| (issue.code, issue.path.as_str(), issue.message.as_str()))
        .collect();
    assert_eq!(
        found,
        vec![
            (
                ValidationCode::MissingGroupReference,
                "groups[0].parent",
                "parent group \"Nowhere\" does not exist"
            ),
            (
                ValidationCode::MissingGroupReference,
                "groups[0].subgroups[0].id",
                "subgroup \"Missing\" does not exist"
            ),
            (
                ValidationCode::WrongGroupReferenceKind,
                "groups[0].subgroups[1].id",
                "subgroup \"Top\" is composite rather than simple"
            ),
            (
                ValidationCode::WrongGroupReferenceKind,
                "groups[1].parent",
                "parent group \"Leaf\" is not composite"
            ),
        ]
    );
}

#[test]
fn atlas_references_and_image_shapes_are_checked() {
    let mut atlas = file_resource(0, "ATLAS");
    atlas.resource_type = ResourceType::Image;
    atlas.atlas = true;
    atlas.width = Some(0);
    atlas.height = Some(4);
    let mut sprite = file_resource(1, "SPRITE");
    sprite.resource_type = ResourceType::Image;
    sprite.parent = Some("ATLAS".into());
    sprite.width = Some(3);
    let mut orphan = file_resource(2, "ORPHAN");
    orphan.resource_type = ResourceType::Image;
    orphan.parent = Some("NONE".into());
    orphan.x = Some(1);
    orphan.y = Some(1);
    orphan.aw = Some(1);
    orphan.ah = Some(1);
    let mut wrong = file_resource(3, "WRONG");
    wrong.resource_type = ResourceType::Image;
    wrong.parent = Some("SPRITE".into());
    wrong.x = Some(1);
    wrong.y = Some(1);
    wrong.aw = Some(1);
    wrong.ah = Some(1);
    let manifest = ResourceManifest {
        slot_count: 4,
        groups: vec![simple("G", vec![atlas, sprite, orphan, wrong])],
    };
    let report = manifest.validate(ValidationProfile::Canonical);
    let found: Vec<(ValidationCode, &str)> = report
        .issues
        .iter()
        .map(|issue| (issue.code, issue.path.as_str()))
        .collect();
    assert_eq!(
        found,
        vec![
            (ValidationCode::InvalidAtlasImage, "groups[0].resources[0]"),
            (ValidationCode::InvalidSprite, "groups[0].resources[1]"),
            (ValidationCode::UnexpectedResourceMetadata, "groups[0].resources[1]"),
            (ValidationCode::MissingAtlasReference, "groups[0].resources[2].parent"),
            (ValidationCode::InvalidAtlasReference, "groups[0].resources[3].parent"),
        ]
    );
    assert_eq!(
        report.issues[3].message,
        "atlas resource \"NONE\" does not exist in the same group"
    );
}

#[test]
fn non_image_metadata_is_a_warning_at_runtime_and_an_error_when_canonical() {
    let mut resource = file_resource(0, "F");
    resource.cols = Some(0);
    let manifest = ResourceManifest {
        slot_count: 1,
        groups: vec![simple("G", vec![resource])],
    };
    let runtime = manifest.validate(ValidationProfile::Pvz2Runtime);
    assert_eq!(runtime.issues.len(), 2);
    assert_eq!(runtime.issues[0].code, ValidationCode::InvalidGridSize);
    assert_eq!(runtime.issues[0].path, "groups[0].resources[0].cols");
    assert_eq!(runtime.issues[0].message, "cols must be at least 1");
    assert_eq!(runtime.issues[1].severity, ValidationSeverity::Warning);
    assert_eq!(runtime.errors().len(), 1);
    assert_eq!(runtime.warnings().len(), 1);
    assert!(!runtime.is_valid());

    let canonical = manifest.validate(ValidationProfile::Canonical);
    assert_eq!(canonical.issues[1].severity, ValidationSeverity::Error);
    assert_eq!(canonical.errors().len(), 2);
    assert!(canonical.warnings().is_empty());
    for error in runtime.errors() {
        assert!(canonical.issues.contains(error));
    }
}

#[test]
fn warnings_alone_leave_a_report_valid() {
    let mut resource = file_resource(0, "F");
    resource.width = Some(1);
    let manifest = ResourceManifest {
        slot_count: 1,
        groups: vec![simple("G", vec![resource])],
    };
    let report = manifest.validate(ValidationProfile::Pvz2Runtime);
    assert_eq!(report.issues.len(), 1);
    assert!(report.is_valid());
    assert!(report.errors().is_empty());
    assert_eq!(
        report.warnings()[0].message,
        "non-Image resource contains image-only metadata"
    );
    assert!(ValidationReport::default().is_valid());
}

#[test]
fn validation_of_a_large_manifest_stays_fast() {
    let count = 20_000_u32;
    let resources: Vec<Resource> = (0..count)
        .map(|slot| file_resource(slot, &format!("RESOURCE_{slot}")))
        .collect();
    let manifest = ResourceManifest {
        slot_count: count,
        groups: vec![simple("Everything", resources)],
    };
    let started = std::time::Instant::now();
    let report = manifest.validate(ValidationProfile::Canonical);
    assert!(report.is_valid(), "{:?}", report.issues.first());
    assert!(started.elapsed().as_secs() < 10);
}
