use cdr_outline::domain::{ClosedPath, PointMm};
use cdr_outline::page::{
    check_curves, check_ring, check_unit, drop_repeated_end, orient_path, orient_ring, PageError,
};
use cdr_outline::preview::{
    append_svg_curve_path, append_svg_ring, bitmap_status, check_arguments, check_dimensions,
    checker_pixel, escape_xml, outline_svg, preview_name, preview_settings, SvgFrame, SvgPoint, SvgSegment,
};
use cdr_outline::trim::{no_content_message, trim_rgba_image, Picture, Rgba};
use cdr_outline::verify::{
    check_report, check_shape_count, check_vectors, ensure_distinct_paths, expected_subpaths,
    is_unchanged, match_shapes, same_bitmap_bounds, shape_extent, validate_shape,
    validate_verified_shape, verify_layer_shapes, BoundsMm, LayerFault, VectorPolygon, VectorShape,
    VerifiedShape, VerifyError,
};

fn point(x: f64, y: f64) -> PointMm {
    PointMm::new(x.to_bits(), y.to_bits())
}

fn bounds(left: f64, bottom: f64, width: f64, height: f64) -> BoundsMm {
    BoundsMm {
        left: left.to_bits(),
        bottom: bottom.to_bits(),
        width: width.to_bits(),
        height: height.to_bits(),
    }
}

#[test]
fn previews_have_holes_of_three_millimetres() {
    let settings = preview_settings();
    assert_eq!(f64::from_bits(settings.hole_diameter_mm), 3.0);
    assert_eq!(f64::from_bits(settings.outline_offset_mm), 2.0);
    assert_eq!(f64::from_bits(settings.hole_edge_clearance_mm), 2.0);
}

#[test]
fn repeated_ends_are_dropped() {
    let mut ring = vec![point(0.0, 0.0), point(1.0, 0.0), point(1.0, 1.0), point(9.9e-10, 0.0)];
    drop_repeated_end(&mut ring);
    assert_eq!(ring.len(), 3);
    ring.push(point(1.0e-9, 0.0));
    drop_repeated_end(&mut ring);
    assert_eq!(ring.len(), 4);
}

#[test]
fn rings_are_oriented() {
    let ring = vec![point(0.0, 0.0), point(1.0, 0.0), point(1.0, 1.0)];
    let kept = orient_ring(ring.clone(), 0.5f64.to_bits(), true);
    assert!(kept[0] == ring[0]);
    let turned = orient_ring(ring.clone(), 0.5f64.to_bits(), false);
    assert!(turned[0] == ring[2] && turned[2] == ring[0]);
    let path = ClosedPath::try_from_vertices(ring.clone()).unwrap();
    let turned = orient_path(path, (-0.5f64).to_bits(), true);
    assert!(turned.segments()[0].start() == ring[0]);
    assert!(turned.segments()[0].end() == ring[2]);
}

#[test]
fn drawings_are_checked() {
    assert_eq!(check_ring(3), Ok(()));
    assert_eq!(check_ring(2).unwrap_err(), PageError::ShortRing);
    assert_eq!(check_curves(2, None), Ok(()));
    assert_eq!(check_curves(2, Some(2)), Ok(()));
    let error = check_curves(2, Some(3)).unwrap_err();
    assert_eq!(error.message(), "curved and polygon geometry counts differ");
    assert_eq!(check_unit(25.4f64.to_bits()), Ok(()));
    let error = check_unit(0.0f64.to_bits()).unwrap_err();
    assert_eq!(error.message(), "Corel returned an invalid document unit scale");
}

#[test]
fn markup_is_escaped() {
    assert_eq!(escape_xml("a&\"<b>"), "a&amp;&quot;&lt;b&gt;");
    assert_eq!(escape_xml("&amp;"), "&amp;amp;");
    assert_eq!(preview_name("1.2.3", "svg"), "outline-1-2-3.svg");
    assert_eq!(bitmap_status(true), "combined_preview_generated");
    assert_eq!(bitmap_status(false), "no_transparent_pixels");
    assert!(check_dimensions("1.2", (3, 4), (3, 4)).is_ok());
    assert_eq!(
        check_dimensions("1.2", (3, 4), (4, 3)).unwrap_err(),
        "1.2 dimensions differ from the CDR inventory"
    );
    assert_eq!(check_arguments(2), Ok(()));
    assert!(check_arguments(1).unwrap_err().starts_with("usage: cdr-raster"));
    assert_eq!(check_arguments(3), Err("too many arguments"));
    assert_eq!(checker_pixel(15, 15).red, 255);
    assert_eq!(checker_pixel(16, 15).red, 238);
    assert_eq!(checker_pixel(16, 16).red, 255);
}

fn written(x: &str, y: &str) -> SvgPoint {
    SvgPoint { x: x.to_owned(), y: y.to_owned() }
}

#[test]
fn previews_are_drawn() {
    let mut data = String::new();
    append_svg_ring(&mut data, &vec![written("0", "1"), written("2", "3")]);
    append_svg_ring(&mut data, &Vec::new());
    append_svg_curve_path(
        &mut data,
        &written("4", "5"),
        &vec![
            SvgSegment::Line { end: written("6", "7") },
            SvgSegment::Curve {
                control_start: written("a", "b"),
                control_end: written("c", "d"),
                end: written("4", "5"),
            },
        ],
    );
    assert_eq!(data, "M0 1L2 3ZM4 5L6 7Ca b c d 4 5Z");
    let frame = SvgFrame {
        min_x: "-1.0000".to_owned(),
        min_y: "-2.0000".to_owned(),
        width: "3.0000".to_owned(),
        height: "4.0000".to_owned(),
        image_width: "5.0000".to_owned(),
        image_height: "6.0000".to_owned(),
    };
    let svg = outline_svg(&frame, "..\\a&b.png", &data);
    let lines: Vec<&str> = svg.lines().collect();
    assert_eq!(
        lines[0],
        "<svg xmlns=\"http://www.w3.org/2000/svg\" width=\"3.0000mm\" height=\"4.0000mm\" viewBox=\"-1.0000 -2.0000 3.0000 4.0000\">"
    );
    assert_eq!(
        lines[3],
        "  <image href=\"../a&amp;b.png\" x=\"0\" y=\"0\" width=\"5.0000\" height=\"6.0000\" preserveAspectRatio=\"none\"/>"
    );
    assert!(lines[4].starts_with("  <path d=\"M0 1L2 3ZM4 5L6 7Ca b c d 4 5Z\" fill=\"none\""));
    assert_eq!(lines[5], "</svg>");
}

#[test]
fn an_empty_picture_is_not_trimmed() {
    let faint = Rgba { red: 1, green: 2, blue: 3, alpha: 96 };
    let picture = Picture::try_new(2, 1, vec![faint; 2]).unwrap();
    assert!(trim_rgba_image(&picture).is_err());
    assert_eq!(no_content_message(), "位图没有高于透明阈值的可见像素");
    assert!(Picture::try_new(2, 2, vec![faint; 3]).is_none());
}

fn polygon(points: &[(f64, f64)], interiors: usize) -> VectorPolygon {
    VectorPolygon {
        exterior: points.iter().map(|(x, y)| point(*x, *y)).collect(),
        interiors: vec![Vec::new(); interiors],
        curved_exterior: None,
        curved_interiors: None,
    }
}

fn shape(path: &str, polygons: Vec<VectorPolygon>) -> VectorShape {
    VectorShape {
        source_shape_path: path.to_owned(),
        name: "CDR_RUST_OUTLINE_1".to_owned(),
        outline_hex: "#ec2a90".to_owned(),
        outline_width_mm: 0.076f64.to_bits(),
        polygons,
    }
}

fn found(subpaths: i32, bounds_mm: BoundsMm) -> VerifiedShape {
    VerifiedShape {
        source_shape_path: String::new(),
        name: "CDR_RUST_OUTLINE_1".to_owned(),
        shape_type: 3,
        subpath_count: subpaths,
        closed_subpaths: subpaths,
        fill_type: 0,
        outline_type: 1,
        outline_width_mm: 0.077f64.to_bits(),
        outline_rgb: [236, 42, 144],
        bounds_mm,
    }
}

#[test]
fn only_drawable_shapes_are_drawn() {
    let good = shape("a", vec![polygon(&[(0.0, 0.0)], 0)]);
    assert_eq!(validate_shape(&good), Ok(()));
    let mut wrong = good.clone();
    wrong.outline_hex = "#000000".to_owned();
    assert_eq!(validate_shape(&wrong), Err(VerifyError::UnsupportedShape));
    let mut wrong = good.clone();
    wrong.outline_width_mm = 0.077f64.to_bits();
    assert_eq!(validate_shape(&wrong), Err(VerifyError::UnsupportedShape));
    let mut wrong = good.clone();
    wrong.polygons.clear();
    assert_eq!(validate_shape(&wrong), Err(VerifyError::UnsupportedShape));
    let mut wrong = good;
    wrong.name = "other".to_owned();
    let error = validate_shape(&wrong).unwrap_err();
    assert_eq!(error.message(), "vector shape contains unsupported styling or geometry");
}

#[test]
fn shapes_that_look_different_are_refused() {
    let place = bounds(0.0, 0.0, 10.0, 10.0);
    assert_eq!(validate_verified_shape(&found(1, place), 1, place), Ok(()));
    assert_eq!(
        validate_verified_shape(&found(1, bounds(0.2, -0.2, 10.1, 10.0)), 1, place),
        Ok(())
    );
    let refused = Err(VerifyError::UnexpectedShape);
    assert_eq!(validate_verified_shape(&found(2, place), 1, place), refused);
    assert_eq!(
        validate_verified_shape(&found(1, bounds(0.21, 0.0, 10.0, 10.0)), 1, place),
        refused
    );
    let mut wrong = found(1, place);
    wrong.outline_rgb = [236, 42, 145];
    assert_eq!(validate_verified_shape(&wrong, 1, place), refused);
    let mut wrong = found(1, place);
    wrong.outline_width_mm = 0.079f64.to_bits();
    assert_eq!(validate_verified_shape(&wrong, 1, place), refused);
    let mut wrong = found(1, place);
    wrong.fill_type = 1;
    assert_eq!(validate_verified_shape(&wrong, 1, place), refused);
}

#[test]
fn a_layer_is_held_against_what_was_drawn() {
    let near = shape("near", vec![polygon(&[(0.0, 0.0)], 1)]);
    let far = shape("far", vec![polygon(&[(100.0, 0.0)], 0), polygon(&[], 0)]);
    let expected = vec![near, far];
    let boxes = vec![bounds(0.0, 0.0, 5.0, 5.0), bounds(100.0, 0.0, 5.0, 5.0)];
    assert_eq!(expected_subpaths(&expected[0]), Some(2));
    assert_eq!(expected_subpaths(&expected[1]), Some(2));
    let distances = vec![
        [100.0f64, 0.0].map(f64::to_bits).to_vec(),
        [0.0f64, 100.0].map(f64::to_bits).to_vec(),
    ];
    assert_eq!(match_shapes(&distances), vec![1, 0]);
    let layer = vec![found(2, boxes[1]), found(2, boxes[0])];
    let verified = verify_layer_shapes(layer.clone(), &expected, &boxes, &distances).unwrap();
    assert_eq!(verified[0].source_shape_path, "far");
    assert_eq!(verified[1].source_shape_path, "near");
    let wrong = vec![found(2, boxes[1]), found(3, boxes[0])];
    assert_eq!(
        verify_layer_shapes(wrong, &expected, &boxes, &distances).err(),
        Some(LayerFault { error: VerifyError::UnexpectedShape, place: Some(1) })
    );
    let fewer = verify_layer_shapes(Vec::new(), &expected, &boxes, &Vec::new()).unwrap_err();
    assert_eq!(fewer.error, VerifyError::ShapeCount { expected: 2, found: 0 });
    assert_eq!(fewer.place, None);
    let error = check_shape_count(2, 1).unwrap_err();
    assert_eq!(error.message(), "expected 2 vector curves, found 1");
}

#[test]
fn a_taken_shape_is_not_taken_again() {
    let row = [1.0f64, 2.0, 3.0].map(f64::to_bits).to_vec();
    assert_eq!(match_shapes(&vec![row.clone(), row.clone(), row]), vec![0, 1, 2]);
    let equal = [1.0f64, 1.0].map(f64::to_bits).to_vec();
    assert_eq!(match_shapes(&vec![equal.clone(), equal]), vec![0, 1]);
}

#[test]
fn extents_span_all_outer_rings() {
    let two = vec![polygon(&[(1.0, 5.0), (f64::NAN, 2.0)], 0), polygon(&[(-3.0, 4.0)], 0)];
    let extent = shape_extent(&shape("a", two)).unwrap();
    assert_eq!(f64::from_bits(extent.min_x), -3.0);
    assert_eq!(f64::from_bits(extent.max_x), 1.0);
    assert_eq!(f64::from_bits(extent.min_y), 2.0);
    assert_eq!(f64::from_bits(extent.max_y), 5.0);
    let error = shape_extent(&shape("a", vec![polygon(&[], 0)])).unwrap_err();
    assert_eq!(error.message(), "vector shape has no exterior points");
}

#[test]
fn copies_lie_where_their_originals_do() {
    let place = bounds(1.0, 2.0, 3.0, 4.0);
    assert!(same_bitmap_bounds(place, bounds(1.0, 2.0, 3.0, 4.000_000_09)));
    assert!(!same_bitmap_bounds(place, bounds(1.0, 2.0, 3.0, 4.000_000_2)));
}

#[test]
fn files_are_checked() {
    let sum = "BA7816BF8F01CFEA414140DE5DAE2223B00361A396177A9CB410FF61F20015AD";
    assert!(is_unchanged(b"abc", sum) && !is_unchanged(b"abd", sum));
    assert_eq!(check_vectors(1, 1, 1, b"abc", sum), Ok(()));
    assert_eq!(check_vectors(1, 1, 1, b"abd", sum), Err(VerifyError::SourceChanged));
    for (version, page, count) in [(2, 1, 1), (1, 0, 1), (1, 1, 0)] {
        assert_eq!(
            check_vectors(version, page, count, b"abc", sum),
            Err(VerifyError::EmptyVectors)
        );
        assert_eq!(check_report(version, count, page), Err(VerifyError::EmptyReport));
    }
    assert_eq!(check_report(1, 1, 1), Ok(()));
    assert_eq!(ensure_distinct_paths("a", "b"), Ok(()));
    let error = ensure_distinct_paths("a", "a").unwrap_err();
    assert_eq!(error.message(), "refusing to overwrite the source CDR");
}
