use h5stream::catalog::Attribute;
use h5stream::catalog::Dataset;
use h5stream::catalog::DatasetType;
use h5stream::catalog::DecodeKind;
use h5stream::catalog::SkipReason;
use h5stream::catalog::plan_channels;

fn ds(name: &str, type_: DatasetType, dims: Vec<u64>, td: Option<usize>) -> Dataset {
    Dataset {
        name: name.to_string(),
        type_,
        dimensions: dims,
        attrs: Vec::new(),
        time_dimension: td,
    }
}

#[test]
fn from_type_maps_every_code() {
    assert_eq!(DatasetType::from_type(0), DatasetType::Integer);
    assert_eq!(DatasetType::from_type(1), DatasetType::Float);
    assert_eq!(DatasetType::from_type(2), DatasetType::Time);
    assert_eq!(DatasetType::from_type(3), DatasetType::String);
    assert_eq!(DatasetType::from_type(4), DatasetType::Bitfield);
    assert_eq!(DatasetType::from_type(5), DatasetType::Opaque);
    assert_eq!(DatasetType::from_type(6), DatasetType::Compound);
    assert_eq!(DatasetType::from_type(7), DatasetType::Reference);
    assert_eq!(DatasetType::from_type(8), DatasetType::Enum);
    assert_eq!(DatasetType::from_type(9), DatasetType::Vlen);
    assert_eq!(DatasetType::from_type(10), DatasetType::Array);
    assert_eq!(DatasetType::from_type(11), DatasetType::Complex);
    assert_eq!(DatasetType::from_type(12), DatasetType::Nclasses);
}

#[test]
fn from_type_degrades_unknown_codes() {
    // Unknown class codes become Unsupported instead of a failure.
    assert_eq!(DatasetType::from_type(13), DatasetType::Unsupported);
    assert_eq!(DatasetType::from_type(-1), DatasetType::Unsupported);
    assert_eq!(DatasetType::from_type(9999), DatasetType::Unsupported);
}

#[test]
fn type_labels() {
    assert_eq!(DatasetType::Integer.label(), "Integer");
    assert_eq!(DatasetType::Compound.label(), "Compound");
    assert_eq!(DatasetType::Unsupported.label(), "Unsupported");
}

#[test]
fn image_topic_classification() {
    let d = ds("/camera_feed", DatasetType::Integer, vec![10, 480, 640], Some(0));
    assert!(d.is_image_topic());
    let d = ds("/camera_feed", DatasetType::Integer, vec![10, 480, 640, 3], Some(0));
    assert!(d.is_image_topic());
    // Image name but wrong dimension count.
    let d = ds("/camera_feed", DatasetType::Integer, vec![10, 480], Some(0));
    assert!(!d.is_image_topic());
    // Right dimensions but no image-suggesting name.
    let d = ds("/pressure", DatasetType::Integer, vec![10, 480, 640], Some(0));
    assert!(!d.is_image_topic());
    // All four name fragments count.
    assert!(ds("/video_x", DatasetType::Integer, vec![1, 2, 3], None).is_image_topic());
    assert!(ds("/depth_x", DatasetType::Integer, vec![1, 2, 3], None).is_image_topic());
    assert!(ds("/image_x", DatasetType::Integer, vec![1, 2, 3], None).is_image_topic());
}

#[test]
fn time_dimension_count() {
    let d = ds("/a", DatasetType::Integer, vec![10, 20], Some(1));
    assert_eq!(d.time_dimension_count(), Some(20));
    let d = ds("/a", DatasetType::Integer, vec![10, 20], None);
    assert_eq!(d.time_dimension_count(), None);
}

#[test]
fn plan_simple_integer_channel() {
    let datasets = vec![
        ds("/temp", DatasetType::Integer, vec![10], Some(0)),
        ds("/temp.timestamp", DatasetType::Time, vec![10], Some(0)),
    ];
    let plan = plan_channels(&datasets);
    assert_eq!(plan.channels.len(), 1);
    assert_eq!(plan.diagnostics.len(), 0);
    let c = &plan.channels[0];
    assert_eq!(c.id, 0);
    assert_eq!(c.dataset, 0);
    assert_eq!(c.timestamp_dataset, 1);
    assert_eq!(c.decode, DecodeKind::IntegerRaw);
    assert!(!c.as_image);
}

#[test]
fn missing_companion_drops_with_one_diagnostic() {
    // The dataset without a resolvable companion is excluded from the
    // catalog with exactly one diagnostic naming it; the valid channel
    // still loads.
    let datasets = vec![
        ds("/lonely", DatasetType::Integer, vec![10], Some(0)),
        ds("/good", DatasetType::Integer, vec![10], Some(0)),
        ds("/good.timestamp", DatasetType::Time, vec![10], Some(0)),
    ];
    let plan = plan_channels(&datasets);
    assert_eq!(plan.channels.len(), 1);
    assert_eq!(plan.channels[0].dataset, 1);
    assert_eq!(plan.diagnostics.len(), 1);
    assert_eq!(plan.diagnostics[0].dataset, "/lonely");
    assert_eq!(plan.diagnostics[0].reason, SkipReason::MissingTimestamps);
}

#[test]
fn unknown_time_dimension_drops() {
    let datasets = vec![
        ds("/a", DatasetType::Integer, vec![10], None),
        ds("/a.timestamp", DatasetType::Time, vec![10], Some(0)),
    ];
    let plan = plan_channels(&datasets);
    assert_eq!(plan.channels.len(), 0);
    assert_eq!(plan.diagnostics.len(), 1);
    assert_eq!(plan.diagnostics[0].dataset, "/a");
    assert_eq!(plan.diagnostics[0].reason, SkipReason::UnknownTimeDimension);
}

#[test]
fn unsupported_type_drops() {
    let datasets = vec![
        ds("/blob", DatasetType::Compound, vec![10], Some(0)),
        ds("/blob.timestamp", DatasetType::Time, vec![10], Some(0)),
    ];
    let plan = plan_channels(&datasets);
    assert_eq!(plan.channels.len(), 0);
    assert_eq!(plan.diagnostics.len(), 1);
    assert_eq!(plan.diagnostics[0].dataset, "/blob");
    assert_eq!(
        plan.diagnostics[0].reason,
        SkipReason::UnsupportedType(DatasetType::Compound)
    );
}

#[test]
fn float_channel() {
    let datasets = vec![
        ds("/level", DatasetType::Float, vec![10], Some(0)),
        ds("/level.timestamp", DatasetType::Time, vec![10], Some(0)),
    ];
    let plan = plan_channels(&datasets);
    assert_eq!(plan.channels.len(), 1);
    assert_eq!(plan.channels[0].decode, DecodeKind::FloatRaw);
}

#[test]
fn image_dataset_gets_extra_channel() {
    let datasets = vec![
        ds("/camera", DatasetType::Integer, vec![10, 480, 640], Some(0)),
        ds("/camera.timestamp", DatasetType::Time, vec![10], Some(0)),
    ];
    let plan = plan_channels(&datasets);
    assert_eq!(plan.channels.len(), 2);
    assert_eq!(plan.channels[0].decode, DecodeKind::IntegerRaw);
    assert!(!plan.channels[0].as_image);
    assert_eq!(plan.channels[1].id, 1);
    assert_eq!(plan.channels[1].decode, DecodeKind::Mono16Image);
    assert!(plan.channels[1].as_image);

    let datasets = vec![
        ds("/camera", DatasetType::Integer, vec![10, 480, 640, 3], Some(0)),
        ds("/camera.timestamp", DatasetType::Time, vec![10], Some(0)),
    ];
    let plan = plan_channels(&datasets);
    assert_eq!(plan.channels.len(), 2);
    assert_eq!(plan.channels[1].decode, DecodeKind::Rgb8Image);
}

#[test]
fn dimension_list_reference_resolves_companion() {
    // The DIMENSION_LIST attribute points at a sibling dataset whose name
    // suggests a time axis; it wins over the naming convention.
    let mut with_refs = ds("/data", DatasetType::Integer, vec![10], Some(0));
    with_refs.attrs.push((
        "DIMENSION_LIST".to_string(),
        Attribute::Vlen(vec![Attribute::Reference("/scan_time".to_string())]),
    ));
    let datasets = vec![
        with_refs,
        ds("/scan_time", DatasetType::Time, vec![10], Some(0)),
    ];
    let plan = plan_channels(&datasets);
    assert_eq!(plan.channels.len(), 1);
    assert_eq!(plan.channels[0].dataset, 0);
    assert_eq!(plan.channels[0].timestamp_dataset, 1);
    // The referenced time dataset itself has no companion and is dropped
    // with its own diagnostic.
    assert_eq!(plan.diagnostics.len(), 1);
    assert_eq!(plan.diagnostics[0].dataset, "/scan_time");
}

#[test]
fn reference_to_non_time_dataset_does_not_resolve() {
    let mut with_refs = ds("/data", DatasetType::Integer, vec![10], Some(0));
    with_refs.attrs.push((
        "DIMENSION_LIST".to_string(),
        Attribute::Vlen(vec![Attribute::Reference("/other".to_string())]),
    ));
    let datasets = vec![
        with_refs,
        ds("/other", DatasetType::Integer, vec![10], Some(0)),
    ];
    let plan = plan_channels(&datasets);
    assert_eq!(plan.channels.len(), 0);
    // Both datasets are dropped for missing timestamps.
    assert_eq!(plan.diagnostics.len(), 2);
    assert_eq!(plan.diagnostics[0].dataset, "/data");
    assert_eq!(plan.diagnostics[1].dataset, "/other");
}

#[test]
fn auxiliary_timestamp_datasets_are_silently_skipped() {
    let datasets = vec![ds("/x.timestamp", DatasetType::Time, vec![10], Some(0))];
    let plan = plan_channels(&datasets);
    assert_eq!(plan.channels.len(), 0);
    assert_eq!(plan.diagnostics.len(), 0);
}
