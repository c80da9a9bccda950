use cdr_outline::domain::PointMm;
use cdr_outline::raster::{
    check_hole_settings, closes_grooves, line_curve_path, plan_ring, smooth_binary_alpha,
    survives_closing, threshold_alpha, usable_components, AlphaMask, HolePlacementSettings,
    OutlineSettings, PixelBounds, RasterError, RingPlan, RingRun,
};

#[test]
fn detects_a_transparent_edge_and_content_bounds() {
    let mask = AlphaMask::try_new(3, 3, vec![0, 0, 0, 0, 128, 255, 0, 255, 0]).unwrap();

    let stats = mask.stats();
    assert!(stats.has_transparent_edge());
    assert_eq!(stats.transparent_pixels, 6);
    assert_eq!(stats.partial_pixels, 1);
    assert_eq!(stats.opaque_pixels, 2);
    assert_eq!(
        stats.content_bounds,
        Some(PixelBounds {
            left: 1,
            top: 1,
            right: 2,
            bottom: 2,
        })
    );
}

#[test]
fn rejects_a_wrong_alpha_channel_length() {
    let error = AlphaMask::try_new(2, 2, vec![0, 255]).unwrap_err();
    assert_eq!(
        error,
        RasterError::AlphaLengthMismatch {
            expected: 4,
            actual: 2,
        }
    );
}

#[test]
fn antialiased_threshold_creates_a_one_pixel_transparent_feather() {
    let mut alpha = vec![0; 49];
    for y in 2..=4 {
        for x in 2..=4 {
            alpha[y * 7 + x] = 255;
        }
    }
    let mask = AlphaMask::try_new(7, 7, alpha).unwrap();

    let softened = mask.antialiased_threshold(96).unwrap();

    assert_eq!(softened[3 * 7 + 3], 255);
    assert!((180..=205).contains(&softened[3 * 7 + 2]));
    assert!((50..=80).contains(&softened[3 * 7 + 1]));
    assert_eq!(softened[3 * 7], 0);
}

#[test]
fn fully_opaque_image_has_no_transparent_edge() {
    let mask = AlphaMask::try_new(2, 2, vec![255; 4]).unwrap();
    assert!(!mask.stats().has_transparent_edge());
}

fn settings(offset: f64, tool: f64, smoothing: f64) -> OutlineSettings {
    OutlineSettings {
        alpha_threshold: 127,
        offset_mm: offset.to_bits(),
        tool_diameter_mm: tool.to_bits(),
        smoothing_mm: smoothing.to_bits(),
        minimum_component_area_mm2: 0.0f64.to_bits(),
    }
}

fn offset(mask: &AlphaMask, width: f64, height: f64, settings: OutlineSettings) -> RasterError {
    match mask.offset_outline(width.to_bits(), height.to_bits(), settings) {
        Ok(_) => panic!("the outline was accepted"),
        Err(error) => error,
    }
}

#[test]
fn rejects_negative_smoothing() {
    let mask = AlphaMask::try_new(3, 3, vec![0, 0, 0, 0, 255, 0, 0, 0, 0]).unwrap();
    let error = offset(&mask, 3.0, 3.0, settings(2.0, 2.0, -0.01));

    assert_eq!(error, RasterError::InvalidOutlineSettings);
}

#[test]
fn outlines_are_refused_for_what_is_wrong() {
    let mask = AlphaMask::try_new(3, 3, vec![0, 0, 0, 0, 255, 0, 0, 0, 0]).unwrap();
    let zero = offset(&mask, 3.0, 3.0, settings(0.0, 2.0, 0.02));
    assert_eq!(zero, RasterError::InvalidOutlineSettings);
    let flat = offset(&mask, 0.0, 3.0, settings(2.0, 2.0, 0.02));
    assert_eq!(flat, RasterError::InvalidPhysicalSize);
    let opaque = AlphaMask::try_new(1, 2, vec![255, 200]).unwrap();
    let error = offset(&opaque, 3.0, 3.0, settings(2.0, 2.0, 0.02));
    assert_eq!(error, RasterError::NoTransparentEdge);
    assert_eq!(error.message(), "raster does not contain a transparent edge");
}

#[test]
fn a_silhouette_gets_a_transparent_border() {
    let mask = AlphaMask::try_new(2, 1, vec![255, 0]).unwrap();
    let grid = mask
        .trace_contour(1.0f64.to_bits(), 1.0f64.to_bits(), settings(0.0, 0.0, 0.02))
        .ok()
        .unwrap();
    assert_eq!((grid.width, grid.height), (4, 3));
    assert_eq!(grid.values, vec![0, 0, 0, 0, 0, 255, 0, 0, 0, 0, 0, 0]);
}

#[test]
fn thresholds_keep_only_what_is_above() {
    assert_eq!(threshold_alpha(&[0, 96, 97, 255], 96), vec![0, 0, 255, 255]);
    let mask = AlphaMask::try_new(3, 1, vec![10, 200, 96]).unwrap();
    assert_eq!(
        mask.content_bounds_above(96),
        Some(PixelBounds { left: 1, top: 0, right: 1, bottom: 0 })
    );
    assert_eq!(mask.content_bounds_above(200), None);
}

#[test]
fn a_single_pixel_is_softened() {
    let mut values = vec![0; 9];
    values[4] = 255;
    assert_eq!(smooth_binary_alpha(&values, 3, 3), vec![16, 32, 16, 32, 64, 32, 16, 32, 16]);
}

#[test]
fn a_mask_has_as_many_values_as_pixels() {
    let error = AlphaMask::try_new(2, 2, vec![0; 5]).unwrap_err();
    assert_eq!(error.message(), "alpha channel length mismatch: expected 4, got 5");
}

#[test]
fn components_below_the_minimum_are_left_out() {
    let areas = [0.2f64, 0.25, f64::NAN, 3.0].map(f64::to_bits);
    assert_eq!(usable_components(&areas, 0.25f64.to_bits()).unwrap(), vec![1, 3]);
    assert_eq!(
        usable_components(&areas, 4.0f64.to_bits()).unwrap_err(),
        RasterError::NoUsableContour
    );
    assert!(survives_closing(0.5f64.to_bits(), 0.0f64.to_bits()));
    assert!(!survives_closing(f64::EPSILON.to_bits(), 0.0f64.to_bits()));
    assert!(!survives_closing(0.5f64.to_bits(), 0.6f64.to_bits()));
    assert!(closes_grooves(0.1f64.to_bits()) && !closes_grooves(0.0f64.to_bits()));
}

fn hole(diameter: f64, clearance: f64, smoothing: f64) -> HolePlacementSettings {
    HolePlacementSettings {
        diameter_mm: diameter.to_bits(),
        edge_clearance_mm: clearance.to_bits(),
        smoothing_mm: smoothing.to_bits(),
    }
}

#[test]
fn hole_settings_are_checked() {
    assert_eq!(check_hole_settings(hole(3.5, 2.0, 0.02)), Ok(true));
    assert_eq!(check_hole_settings(hole(0.0, 2.0, 0.02)), Ok(false));
    for wrong in [hole(-1.0, 2.0, 0.02), hole(3.5, 0.0, 0.02), hole(3.5, 2.0, f64::NAN)] {
        assert_eq!(check_hole_settings(wrong), Err(RasterError::InvalidHoleSettings));
    }
}

#[test]
fn rings_are_planned() {
    assert_eq!(plan_ring(&[true, true]), Err(RasterError::NoUsableContour));
    assert_eq!(plan_ring(&[false; 4]), Ok(RingPlan::Lines));
    assert_eq!(plan_ring(&[true; 4]), Ok(RingPlan::Circle));
    let plan = plan_ring(&[true, false, false, true, true]).unwrap();
    assert_eq!(
        plan,
        RingPlan::Runs(vec![
            RingRun { first: 2, count: 1, is_arc: false },
            RingRun { first: 3, count: 3, is_arc: true },
            RingRun { first: 1, count: 1, is_arc: false },
        ])
    );
}

#[test]
fn a_ring_of_lines_is_a_closed_path() {
    let point = |x: f64, y: f64| PointMm::new(x.to_bits(), y.to_bits());
    let path =
        line_curve_path(vec![point(0.0, 0.0), point(1.0, 0.0), point(0.0, 1.0)]).unwrap();
    assert_eq!(path.segments().len(), 3);
    assert_eq!(
        line_curve_path(vec![point(0.0, 0.0)]).unwrap_err(),
        RasterError::NoUsableContour
    );
}
