use cdr_outline::names::{generated_shape_name, parse_generated_outline_id, SelectionOperation};
use cdr_outline::selection::ProcessingSettings;
use cdr_outline::svg_export::{
    place_bitmap_svg_tag, read_coordinate, replace_svg_images_with_pngs, Placement,
};
use cdr_outline::svg_image::{inspect_svg_images, scan_svg_images, svg_numbers, SvgImageTag};
use cdr_outline::svg_transform::keeps_place;
use cdr_outline::trim::{trim_rgba_image, Picture, Rgba};
use cdr_outline::verify::{
    validate_shape, validate_verified_shape, BoundsMm, VectorPolygon, VectorShape, VerifiedShape,
};

fn bits(value: f64) -> u64 {
    value.to_bits()
}

fn number(text: &[u8]) -> u64 {
    std::str::from_utf8(text).unwrap().parse::<f64>().unwrap().to_bits()
}

fn inspect(svg: &str) -> Vec<SvgImageTag> {
    let inspection = scan_svg_images(svg).unwrap();
    let values: Vec<u64> = svg_numbers(&inspection).iter().map(|text| number(text)).collect();
    inspect_svg_images(inspection, &values).unwrap()
}

fn identity() -> [u64; 6] {
    [1.0, 0.0, 0.0, 1.0, 0.0, 0.0].map(bits)
}

#[test]
fn generated_outline_selection_resolves_its_bitmap_id() {
    assert_eq!(parse_generated_outline_id("CDR_RUST_OUTLINE_42"), Some(42));
    assert_eq!(
        parse_generated_outline_id("CDR_RUST_TRIMMED_OUTLINE_42"),
        Some(42)
    );
    assert_eq!(parse_generated_outline_id("CDR_RUST_HOLE_42"), None);
}

#[test]
fn inspects_corel_svg_with_external_doctype() {
    let svg = r#"<?xml version="1.0" encoding="UTF-8"?>
<!DOCTYPE svg PUBLIC "-//W3C//DTD SVG 1.1//EN" "http://www.w3.org/Graphics/SVG/1.1/DTD/svg11.dtd">
<svg xmlns="http://www.w3.org/2000/svg"></svg>"#;

    assert!(inspect(svg).is_empty());
}

#[test]
fn native_image_coordinates_are_preserved_without_a_transform() {
    let tag = r#"<image x="-713.8" y="-354.9" width="1871.13" height="2421.46" xlink:href="data:image/png;base64,AAAA"/>"#;
    let scan = read_coordinate(tag.as_bytes(), b"x").unwrap().unwrap();
    assert_eq!(number(&scan.numbers[0]), bits(-713.8));

    assert!(keeps_place(&identity(), &identity()));
    let placed = place_bitmap_svg_tag(tag.as_bytes(), &Placement::Keep).unwrap();
    let placed = String::from_utf8(placed).unwrap();

    assert_eq!(placed, tag);
    assert!(!placed.contains("transform="));
}

#[test]
fn ordinary_native_images_are_left_untouched_when_not_replaced() {
    let svg = r#"<svg xmlns="http://www.w3.org/2000/svg" xmlns:xlink="http://www.w3.org/1999/xlink"><image x="-10" y="-20" width="100" height="80" xlink:href="data:image/png;base64,AAAA"/></svg>"#;
    let images = inspect(svg);
    assert!(images[0].embedded_data);

    let output = replace_svg_images_with_pngs(
        svg.as_bytes(),
        &images,
        &[0],
        &vec![None],
        &vec![Ok(Placement::Keep)],
    )
    .unwrap();

    assert_eq!(String::from_utf8(output).unwrap(), svg);
}

#[test]
fn only_requested_bitmap_images_are_replaced() {
    let svg = r#"<svg xmlns="http://www.w3.org/2000/svg" xmlns:xlink="http://www.w3.org/1999/xlink"><image x="0" y="0" width="10" height="10" xlink:href="data:image/png;base64,OLD1"/><image x="20" y="0" width="10" height="10" xlink:href="data:image/png;base64,OLD2"/></svg>"#;
    let images = inspect(svg);

    let output = replace_svg_images_with_pngs(
        svg.as_bytes(),
        &images,
        &[0, 1],
        &vec![Some(vec![1, 2, 3]), None],
        &vec![Ok(Placement::Keep), Ok(Placement::Keep)],
    )
    .unwrap();
    let output = String::from_utf8(output).unwrap();

    assert!(output.contains("data:image/png;base64,AQID"));
    assert!(output.contains("data:image/png;base64,OLD2"));
    assert!(!output.contains("data:image/png;base64,OLD1"));
}

#[test]
fn generated_outline_name_passes_the_writer_validation() {
    let mut shape = VectorShape {
        source_shape_path: "selection.1.id-42".to_owned(),
        name: generated_shape_name(SelectionOperation::Outline, 42),
        outline_hex: "#EC2A90".to_owned(),
        outline_width_mm: bits(0.076),
        polygons: vec![VectorPolygon {
            exterior: Vec::new(),
            interiors: Vec::new(),
            curved_exterior: None,
            curved_interiors: None,
        }],
    };

    let generated_name = shape.name.clone();
    shape.name = "h_xbxb".to_owned();
    assert!(
        validate_shape(&shape).is_ok(),
        "legacy test style must remain accepted"
    );
    shape.name = generated_name;
    assert!(
        validate_shape(&shape).is_ok(),
        "production-generated outline was rejected by the Corel writer"
    );
}

#[test]
fn generated_outline_name_passes_corel_readback_validation() {
    let bounds = BoundsMm {
        left: bits(125.327),
        bottom: bits(230.3539),
        width: bits(40.833),
        height: bits(42.9448),
    };
    let verified = VerifiedShape {
        source_shape_path: "selection.3.id-11".to_owned(),
        name: "CDR_RUST_OUTLINE_11".to_owned(),
        shape_type: 3,
        subpath_count: 1,
        closed_subpaths: 1,
        fill_type: 0,
        outline_type: 1,
        outline_width_mm: bits(0.076),
        outline_rgb: [236, 42, 144],
        bounds_mm: bounds,
    };

    assert!(validate_verified_shape(&verified, 1, bounds).is_ok());
}

fn pixel(red: u8, green: u8, blue: u8, alpha: u8) -> Rgba {
    Rgba { red, green, blue, alpha }
}

#[test]
fn transparent_trim_removes_low_alpha_fringe_pixels() {
    let mut pixels = vec![pixel(0, 0, 0, 0); 25];
    for y in 1..=3 {
        for x in 1..=3 {
            pixels[y * 5 + x] = pixel(220, 120, 80, 255);
        }
    }
    pixels[2 * 5] = pixel(20, 220, 80, 32);
    let image = Picture::try_new(5, 5, pixels).unwrap();
    let trimmed = trim_rgba_image(&image).unwrap();

    assert!((180..=205).contains(&trimmed.get_pixel(2, 3).alpha));
    assert!((50..=80).contains(&trimmed.get_pixel(1, 3).alpha));
    let edge = trimmed.get_pixel(1, 3);
    assert_eq!([edge.red, edge.green, edge.blue], [220, 120, 80]);
    assert_eq!(trimmed.get_pixel(3, 3).alpha, 255);
    assert_eq!(trimmed.get_pixel(5, 3).alpha, 64);
    assert_eq!(trimmed.get_pixel(0, 3).alpha, 0);
    assert_eq!(trimmed.get_pixel(6, 3).alpha, 0);
}

#[test]
fn zero_hole_diameter_disables_holes() {
    let settings = ProcessingSettings {
        outline_offset_mm: bits(2.0),
        hole_diameter_mm: bits(0.0),
        hole_edge_clearance_mm: bits(2.0),
        tool_diameter_mm: bits(2.0),
        smoothing_mm: bits(0.02),
    };

    assert!(settings.validate().is_ok());
}

#[test]
fn negative_hole_diameter_is_rejected() {
    let settings = ProcessingSettings {
        outline_offset_mm: bits(2.0),
        hole_diameter_mm: bits(-0.1),
        hole_edge_clearance_mm: bits(2.0),
        tool_diameter_mm: bits(2.0),
        smoothing_mm: bits(0.02),
    };

    assert!(settings.validate().is_err());
}

#[test]
fn negative_smoothing_is_rejected() {
    let settings = ProcessingSettings {
        outline_offset_mm: bits(2.0),
        hole_diameter_mm: bits(3.0),
        hole_edge_clearance_mm: bits(2.0),
        tool_diameter_mm: bits(2.0),
        smoothing_mm: bits(-0.01),
    };

    assert!(settings.validate().is_err());
}

#[test]
fn negative_tool_diameter_is_rejected() {
    let settings = ProcessingSettings {
        outline_offset_mm: bits(2.0),
        hole_diameter_mm: bits(3.0),
        hole_edge_clearance_mm: bits(2.0),
        tool_diameter_mm: bits(-0.01),
        smoothing_mm: bits(0.02),
    };

    assert!(settings.validate().is_err());
}
