use h5stream::messages::ImagePlanError;
use h5stream::messages::mono16_image_plan;
use h5stream::messages::record_dimensions;
use h5stream::messages::rgb8_image_plan;

#[test]
fn mono16_geometry() {
    let plan = mono16_image_plan(&vec![10, 480, 640]).unwrap();
    assert_eq!(plan.width, 640);
    assert_eq!(plan.height, 480);
    assert_eq!(plan.step, 1280);
}

#[test]
fn mono16_rejects_wrong_dimension_count() {
    assert_eq!(
        mono16_image_plan(&vec![10, 480]),
        Err(ImagePlanError::InvalidDimensions)
    );
    assert_eq!(
        mono16_image_plan(&vec![10, 480, 640, 3]),
        Err(ImagePlanError::InvalidDimensions)
    );
}

#[test]
fn mono16_rejects_oversized_extents() {
    // A row of 2^31 sixteen-bit pixels does not fit a 32-bit step.
    assert_eq!(
        mono16_image_plan(&vec![10, 480, 1 << 31]),
        Err(ImagePlanError::ExtentTooLarge)
    );
    assert_eq!(
        mono16_image_plan(&vec![10, 1 << 33, 640]),
        Err(ImagePlanError::ExtentTooLarge)
    );
}

#[test]
fn rgb8_geometry() {
    let plan = rgb8_image_plan(&vec![10, 480, 640, 3]).unwrap();
    assert_eq!(plan.width, 640);
    assert_eq!(plan.height, 480);
    assert_eq!(plan.step, 1920);
}

#[test]
fn rgb8_rejects_wrong_dimension_count() {
    assert_eq!(
        rgb8_image_plan(&vec![10, 480, 640]),
        Err(ImagePlanError::InvalidDimensions)
    );
}

#[test]
fn rgb8_rejects_oversized_extents() {
    assert_eq!(
        rgb8_image_plan(&vec![10, 480, 0x5555_5556u64, 3]),
        Err(ImagePlanError::ExtentTooLarge)
    );
}

#[test]
fn record_dimensions_drop_the_time_axis() {
    assert_eq!(record_dimensions(&vec![10, 2, 3]), vec![2, 3]);
    assert_eq!(record_dimensions(&vec![10]), Vec::<u64>::new());
}
