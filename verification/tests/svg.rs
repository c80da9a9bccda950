use cdr_outline::export_run::{ExportAction, ExportFault, ExportReply, SvgExport};
use cdr_outline::shapes::{collect_svg_bitmaps, find_bitmap, FoundBitmap, ShapeNode};
use cdr_outline::svg_export::{
    check_output_path, check_png, check_roots, check_selection, check_size, default_svg_name,
    export_dpi, is_inside_powerclip, map_bitmaps, marker_name, needs_markers,
    place_bitmap_svg_tag, read_coordinate, read_transform, replace_svg_images_with_pngs,
    visit_shape, ExportError, Placement, ShapeVisit,
};
use cdr_outline::svg_image::{inspect_svg_images, scan_svg_images, svg_numbers, SvgImageTag};
use cdr_outline::svg_tag::{
    replace_svg_href, set_svg_attribute, svg_attribute_range, svg_tag_end, SvgFault,
};
use cdr_outline::svg_transform::{
    check_transform, format_svg_number, matrix_is_identity, parse_svg_number, parse_svg_numbers,
    parse_svg_transform, TransformFunction, TransformStep,
};

fn values(numbers: &[Vec<u8>]) -> Vec<u64> {
    numbers
        .iter()
        .map(|text| std::str::from_utf8(text).unwrap().parse::<f64>().unwrap().to_bits())
        .collect()
}

fn inspect(svg: &str) -> Result<Vec<SvgImageTag>, SvgFault> {
    let inspection = scan_svg_images(svg).unwrap();
    let numbers = values(&svg_numbers(&inspection));
    inspect_svg_images(inspection, &numbers)
}

#[test]
fn tags_end_outside_of_quotes() {
    assert_eq!(svg_tag_end(b"<image a='>' b=\">\">x>", 0), Ok(19));
    assert_eq!(svg_tag_end(b"<image a='>", 0), Err(SvgFault::OpenTag));
}

#[test]
fn attributes_are_found() {
    let tag = b"<image  x = \"1\" xlink:href='a\"b' width=\"\"/>";
    assert_eq!(svg_attribute_range(tag, b"x"), Ok(Some((13, 14))));
    assert_eq!(svg_attribute_range(tag, b"xlink:href"), Ok(Some((28, 31))));
    assert_eq!(svg_attribute_range(tag, b"width"), Ok(Some((40, 40))));
    assert_eq!(svg_attribute_range(tag, b"y"), Ok(None));
    assert_eq!(svg_attribute_range(b"<image x=1/>", b"x"), Err(SvgFault::MissingQuote));
    assert_eq!(svg_attribute_range(b"<image x=\"1/>", b"x"), Err(SvgFault::OpenValue));
}

#[test]
fn attributes_read_back() {
    let tag = set_svg_attribute(b"<image x=\"1\"/>", b"x", b"22").unwrap();
    assert_eq!(tag, b"<image x=\"22\"/>".to_vec());
    let tag = set_svg_attribute(b"<image x=\"1\"/>", b"y", b"3").unwrap();
    assert_eq!(tag, b"<image x=\"1\" y=\"3\"/>".to_vec());
    let (from, to) = svg_attribute_range(&tag, b"y").unwrap().unwrap();
    assert_eq!(&tag[from..to], b"3");
    assert_eq!(set_svg_attribute(b"<image", b"y", b"3"), Err(SvgFault::OpenTag));
}

#[test]
fn setting_an_attribute_leaves_the_others() {
    let tag = b"<image x='1' y = \"2\" id=\"a/b\" />".to_vec();
    let read = |tag: &[u8], name: &[u8]| {
        let (from, to) = svg_attribute_range(tag, name).unwrap()?;
        Some(tag[from..to].to_vec())
    };
    for name in [&b"x"[..], b"y", b"width"] {
        let set = set_svg_attribute(&tag, name, b"4 5 6").unwrap();
        assert_eq!(read(&set, name), Some(b"4 5 6".to_vec()));
        for other in [&b"x"[..], b"y", b"id", b"width", b"height"] {
            if other != name {
                assert_eq!(read(&set, other), read(&tag, other));
            }
        }
        assert_eq!(set_svg_attribute(&set, name, b"4 5 6"), Ok(set.clone()));
    }
}

#[test]
fn references_are_replaced() {
    let tag = replace_svg_href(b"<image href=\"a\"/>", b"b").unwrap();
    assert_eq!(tag, b"<image href=\"b\"/>".to_vec());
    let tag = replace_svg_href(b"<image xlink:href=\"a\"/>", b"b").unwrap();
    assert_eq!(tag, b"<image xlink:href=\"b\"/>".to_vec());
    assert_eq!(replace_svg_href(b"<image/>", b"b"), Err(SvgFault::MissingHref));
    assert_eq!(SvgFault::MissingHref.message(), "SVG image 缺少 href 属性");
}

#[test]
fn numbers_are_scanned() {
    let scan = parse_svg_numbers(b" 1,-2.5e3 .5-.25+7");
    let texts: Vec<&[u8]> = scan.numbers.iter().map(|number| number.as_slice()).collect();
    assert_eq!(texts, vec![&b"1"[..], b"-2.5e3", b".5", b"-.25", b"+7"]);
    assert_eq!(scan.fault, None);
    assert_eq!(parse_svg_numbers(b"1 x").fault, Some(SvgFault::Number));
    assert_eq!(parse_svg_numbers(b"1e").fault, Some(SvgFault::Exponent));
}

#[test]
fn a_coordinate_is_a_single_number() {
    let scan = read_coordinate(b"<image x=\"1.5\"/>", b"x").unwrap().unwrap();
    assert_eq!(parse_svg_number(&scan, &values(&scan.numbers)), Ok(1.5f64.to_bits()));
    let scan = parse_svg_numbers(b"1 2");
    assert_eq!(
        parse_svg_number(&scan, &values(&scan.numbers)),
        Err(SvgFault::NotSingle)
    );
    let scan = parse_svg_numbers(b"1e999 x");
    assert_eq!(
        parse_svg_number(&scan, &[f64::INFINITY.to_bits()]),
        Err(SvgFault::NotFinite)
    );
    assert!(read_coordinate(b"<image/>", b"x").unwrap().is_none());
    assert_eq!(check_size(1.0f64.to_bits(), 2.0f64.to_bits()), Ok(()));
    assert_eq!(
        check_size(1.0f64.to_bits(), 0.0f64.to_bits()),
        Err(SvgFault::EmptyRectangle)
    );
}

#[test]
fn transforms_follow_each_other() {
    let first = parse_svg_transform(b"translate(1 2),");
    let second = parse_svg_transform(b"rotate(30) turn(1)");
    let both = parse_svg_transform(b"translate(1 2), rotate(30) turn(1)");
    assert_eq!(both.steps, [first.steps, second.steps].concat());
    assert_eq!(both.numbers, [first.numbers, second.numbers].concat());
    assert_eq!(both.fault, Some(SvgFault::TransformArguments));
    let nothing = parse_svg_transform(b"");
    assert!(nothing.steps.is_empty() && nothing.numbers.is_empty() && nothing.fault.is_none());
}

#[test]
fn transforms_are_scanned() {
    let tag = b"<image transform=\"translate(1 2), rotate(30)\"/>";
    let scan = read_transform(tag).unwrap().unwrap();
    assert_eq!(
        scan.steps,
        vec![
            TransformStep { function: TransformFunction::Translate, count: 2 },
            TransformStep { function: TransformFunction::Rotate, count: 1 },
        ]
    );
    assert_eq!(values(&scan.numbers), [1.0f64, 2.0, 30.0].map(f64::to_bits).to_vec());
    assert_eq!(check_transform(&scan, &values(&scan.numbers)), Ok(()));
    for (text, fault) in [
        (&b"1"[..], SvgFault::TransformName),
        (b"scale 1", SvgFault::TransformOpening),
        (b"scale(1", SvgFault::TransformClosing),
        (b"matrix(1)", SvgFault::TransformArguments),
        (b"turn(1)", SvgFault::TransformArguments),
    ] {
        let scan = parse_svg_transform(text);
        assert_eq!(check_transform(&scan, &values(&scan.numbers)), Err(fault));
    }
}

#[test]
fn numbers_are_shortened() {
    for (fixed, short) in [
        ("1.500000000", "1.5"),
        ("-0.000000000", "0"),
        ("100.000000000", "100"),
        ("-2.125000000", "-2.125"),
        ("100", "100"),
    ] {
        let chars: Vec<char> = fixed.chars().collect();
        assert_eq!(format_svg_number(&chars).iter().collect::<String>(), short);
    }
}

#[test]
fn matrices_next_to_the_identity_are_the_identity() {
    let matrix = |a: f64| [a, 0.0, -0.0, 1.0, 1.0e-9, 0.0].map(f64::to_bits);
    assert!(matrix_is_identity(&matrix(1.0)));
    assert!(!matrix_is_identity(&matrix(1.00001)));
    assert!(!matrix_is_identity(&matrix(f64::NAN)));
}

const TWO: &str = r#"<svg xmlns="http://www.w3.org/2000/svg" xmlns:xlink="http://www.w3.org/1999/xlink"><g transform="translate(5 6)"><image id="tsvgMap000002" x="1" xlink:href="data:image/png;base64,AA=="/></g><image id="tsvgMap000001" x="2" xlink:href="b.png"/></svg>"#;

#[test]
fn images_are_found_in_a_document() {
    let images = inspect(TWO).unwrap();
    assert_eq!(images.len(), 2);
    assert!(TWO[images[0].start..images[0].end].starts_with("<image id=\"tsvgMap000002\""));
    assert!(TWO[images[0].start..images[0].end].ends_with("/>"));
    assert_eq!(images[0].id.as_deref(), Some("tsvgMap000002"));
    assert_eq!(images[0].geometry[0].as_deref(), Some("1"));
    assert_eq!(images[0].geometry[2], None);
    assert_eq!(images[0].around.len(), 2);
    assert!(images[0].around[0].steps.is_empty());
    assert_eq!(images[0].around[1].steps[0].function, TransformFunction::Translate);
    assert!(images[0].embedded_data && !images[1].embedded_data);
    assert_eq!(images[1].around.len(), 1);
}

#[test]
fn documents_that_cannot_be_inspected_are_refused() {
    let message = scan_svg_images("<svg>").err().unwrap();
    assert!(message.starts_with("Corel SVG XML 解析失败："));
    let nested = r#"<svg xmlns="http://www.w3.org/2000/svg"><svg><image href="a"/></svg></svg>"#;
    assert_eq!(inspect(nested).err(), Some(SvgFault::NestedViewport));
}

#[test]
fn entities_may_hold_elements() {
    let count = |svg: &str| scan_svg_images(svg).map(|inspection| inspection.images.len());
    for (svg, images) in [
        ("<!DOCTYPE svg [<!ENTITY g '<g></g>'>]><svg>&g;</svg>", 0),
        ("<!DOCTYPE svg [<!ENTITY g '<g><image/></g>'>]><svg>&g;</svg>", 1),
        ("<!DOCTYPE svg [<!ENTITY e '<image/>'>]><svg>&e;</svg>", 1),
        ("<!DOCTYPE svg [<!ENTITY e '</svg>'>]><svg><image/></svg>", 1),
        ("<svg><!-- <!ENTITY e '</svg>'> --><image/></svg>", 1),
        ("<svg><![CDATA[<!ENTITY e '</svg>'>]]><image/></svg>", 1),
    ] {
        assert_eq!(count(svg), Ok(images));
    }
    for svg in [
        "<!DOCTYPE a [<!ENTITY e '<b></b></a>'>]><a>&e;</a>",
        "<!DOCTYPE a [<!ENTITY e '<b></b></a>'>]><a>&e;&e;</a>",
        "<!DOCTYPE a [<!ENTITY e '</a>'>]><a>&e;</a>",
        "<!DOCTYPE a [<!ENTITY e '<b>'>]><a>&e;</b></a>",
    ] {
        assert!(count(svg).unwrap_err().starts_with("Corel SVG XML 解析失败："));
    }

    let named = r#"<!DOCTYPE svg [<!ENTITY place "translate(1)">]><svg><g transform="&place;"><image/></g></svg>"#;
    let images = scan_svg_images(named).ok().unwrap().images;
    assert_eq!(images.len(), 1);
    assert_eq!(images[0].around[1].steps[0].function, TransformFunction::Translate);
}

#[test]
fn elements_may_be_nested_deeply() {
    let depth = 100_000;
    let svg = format!("<svg>{}<image/>{}</svg>", "<g>".repeat(depth), "</g>".repeat(depth));
    let images = scan_svg_images(&svg).ok().unwrap().images;
    assert_eq!(images.len(), 1);
    assert_eq!(images[0].around.len(), depth + 1);
}

#[test]
fn markers_tell_bitmaps_apart() {
    assert_eq!(marker_name(0), "tsvgMap000001");
    assert_eq!(marker_name(1_234_566), "tsvgMap1234567");
    let native = inspect(TWO).unwrap();
    let tagged = inspect(TWO).unwrap();
    assert_eq!(needs_markers(&[false, false], &native), Ok(true));
    let mapping = map_bitmaps(&[false, false], &native, &tagged).ok().unwrap();
    assert_eq!(mapping.bitmap_indexes, vec![1, 0]);
    assert_eq!(mapping.replacement_required, vec![true, false]);
    let count = ExportError::NativeCount { bitmaps: 1, native: 2 };
    assert_eq!(needs_markers(&[false], &native), Err(count));
}

fn mapping_error(tagged: &str) -> String {
    let native = inspect(TWO).unwrap();
    let tagged = inspect(tagged).unwrap();
    map_bitmaps(&[false, false], &native, &tagged).err().unwrap().message()
}

#[test]
fn wrong_markers_are_refused() {
    assert_eq!(
        mapping_error(&TWO.replace("x=\"2\"", "x=\"3\"")),
        "Corel 原生 SVG 的位图顺序或位置在标记导出时发生变化"
    );
    assert_eq!(
        mapping_error(&TWO.replace("id=\"tsvgMap000002\" ", "")),
        "无法识别 Corel 导出中的位图 ID"
    );
    assert_eq!(
        mapping_error(&TWO.replace("tsvgMap000002", "tsvgMap000003")),
        "无法映射 Corel SVG 位图：tsvgMap000003"
    );
    assert_eq!(
        mapping_error(&TWO.replace("tsvgMap000002", "tsvgMap000001")),
        "Corel SVG 中出现重复的位图映射 ID"
    );
    assert!(mapping_error("<svg/>").starts_with("SVG 位图数量不匹配：Corel 对象 2，原始 SVG 2"));
}

#[test]
fn pictures_are_put_in() {
    let images = inspect(TWO).unwrap();
    let placements = vec![
        Ok(Placement::At {
            width: b"3".to_vec(),
            height: b"4".to_vec(),
            matrix: b"matrix(1 0 0 1 0 0)".to_vec(),
        }),
        Ok(Placement::Keep),
    ];
    let pngs = vec![None, Some(vec![0xff, 0xee, 0xdd, 0xcc])];
    let output =
        replace_svg_images_with_pngs(TWO.as_bytes(), &images, &[1, 0], &pngs, &placements)
            .unwrap();
    let output = String::from_utf8(output).unwrap();
    assert!(output.contains(
        r#"<image id="tsvgMap000002" x="0" xlink:href="data:image/png;base64,/+7dzA==" y="0" width="3" height="4" transform="matrix(1 0 0 1 0 0)" preserveAspectRatio="none"/>"#
    ));
    assert!(output.ends_with(r#"x="2" xlink:href="b.png"/></svg>"#));
}

#[test]
fn pictures_that_do_not_fit_are_refused() {
    let images = inspect(TWO).unwrap();
    let replace = |indexes: &[usize], placements: &Vec<Result<Placement, SvgFault>>| {
        let pngs = vec![None, Some(vec![1])];
        replace_svg_images_with_pngs(TWO.as_bytes(), &images, indexes, &pngs, placements).err()
    };
    let kept = vec![Ok(Placement::Keep), Ok(Placement::Keep)];
    assert_eq!(replace(&[0], &kept), Some(SvgFault::MappingCount));
    assert_eq!(replace(&[0, 7], &kept), Some(SvgFault::MissingPicture));
    let singular = vec![Err(SvgFault::Singular), Ok(Placement::Keep)];
    assert_eq!(replace(&[1, 0], &singular), Some(SvgFault::Singular));
    assert_eq!(
        place_bitmap_svg_tag(b"<image x='1'>", &Placement::Keep).unwrap(),
        b"<image x='1'>".to_vec()
    );
}

#[test]
fn exports_are_checked() {
    assert_eq!(check_output_path(true, Some("SvG")), Ok(()));
    assert_eq!(check_output_path(false, Some("svg")), Err(ExportError::RelativePath));
    assert_eq!(check_output_path(true, None), Err(ExportError::NotSvgPath));
    assert_eq!(check_selection(true, 0), Err(ExportError::NothingSelected));
    assert_eq!(check_selection(false, 0), Ok(()));
    assert_eq!(check_roots(0), Err(ExportError::NothingToExport));
    assert_eq!(default_svg_name(Some("a<b>:c")), "a_b__c.svg");
    assert_eq!(default_svg_name(Some("  ")), "transparent-native.svg");
    assert_eq!(default_svg_name(None), "transparent-native.svg");
    assert_eq!(export_dpi(72, 96), 300);
    assert_eq!(export_dpi(600, 450), 600);
    assert_eq!(export_dpi(600, 1201), 300);
}

#[test]
fn objects_are_visited() {
    assert_eq!(visit_shape(0, true, true, 0, 0), ShapeVisit::Skip);
    assert_eq!(visit_shape(5, false, true, 1, 0), ShapeVisit::Skip);
    assert_eq!(visit_shape(5, true, true, 1, 0), ShapeVisit::Unsupported);
    assert_eq!(visit_shape(3, true, true, 0, 2), ShapeVisit::Unsupported);
    assert_eq!(visit_shape(5, true, true, 0, 0), ShapeVisit::Bitmap);
    assert_eq!(visit_shape(7, true, true, 0, 0), ShapeVisit::Children);
    let error = ExportError::UnsupportedEffect("glow".to_owned());
    assert_eq!(error.message(), "对象包含暂不支持的特效或透明度：glow");
    assert!(is_inside_powerclip(&[false, true]));
    assert!(!is_inside_powerclip(&[false]));
    let mut deep = vec![false; 64];
    deep.push(true);
    assert!(!is_inside_powerclip(&deep));
}

#[test]
fn pictures_need_an_alpha_channel() {
    let mut png = b"\x89PNG\r\n\x1a\n".to_vec();
    png.resize(26, 0);
    assert_eq!(check_png(&png, 2), Err(ExportError::NoAlpha { number: 3 }));
    for color in [4, 6] {
        png[25] = color;
        assert_eq!(check_png(&png, 2), Ok(()));
    }
    png[0] = 0;
    let error = check_png(&png, 2).unwrap_err();
    assert_eq!(error.message(), "第 3 张位图导出的 PNG 没有保留透明通道");
}

fn follow(bitmaps: usize, failing: &[ExportAction]) -> (Vec<ExportAction>, ExportAction) {
    let mut export = SvgExport::start(bitmaps);
    let mut done = Vec::new();
    loop {
        match export.action {
            ExportAction::Done | ExportAction::Failed(_) => return (done, export.action),
            action => {
                done.push(action);
                export = export.next(if failing.contains(&action) {
                    ExportReply::Failed
                } else {
                    ExportReply::Succeeded
                });
            }
        }
    }
}

#[test]
fn an_export_takes_its_course() {
    let (done, end) = follow(2, &[]);
    assert_eq!(end, ExportAction::Done);
    assert_eq!(
        done,
        vec![
            ExportAction::ExportNative,
            ExportAction::InspectNative,
            ExportAction::Mark(0),
            ExportAction::Mark(1),
            ExportAction::ExportMarked,
            ExportAction::Unmark(1),
            ExportAction::Unmark(0),
            ExportAction::Unsully,
            ExportAction::InspectMarked,
            ExportAction::ExportPictures,
            ExportAction::Assemble,
            ExportAction::RestoreSelection,
            ExportAction::RestoreMark,
            ExportAction::Write,
        ]
    );
    let plain = SvgExport::start(2)
        .next(ExportReply::Succeeded)
        .next(ExportReply::NothingToReplace);
    assert_eq!(plain.action, ExportAction::RestoreSelection);
}

#[test]
fn a_failed_export_puts_everything_back() {
    let (done, end) = follow(3, &[ExportAction::Mark(2)]);
    assert_eq!(end, ExportAction::Failed(ExportFault::Work));
    assert_eq!(
        done[5..],
        [ExportAction::RestoreName(1), ExportAction::RestoreName(0), ExportAction::RestoreSelection, ExportAction::RestoreMark]
    );
    let (done, end) = follow(2, &[ExportAction::Unmark(1)]);
    assert_eq!(end, ExportAction::Failed(ExportFault::Work));
    assert!(done.contains(&ExportAction::RestoreName(1)) && done.contains(&ExportAction::RestoreName(0)));
    assert!(!done.contains(&ExportAction::Write));
    let (_, end) = follow(1, &[ExportAction::RestoreSelection, ExportAction::RestoreMark]);
    assert_eq!(end, ExportAction::Failed(ExportFault::Selection));
    let (_, end) = follow(1, &[ExportAction::RestoreMark]);
    assert_eq!(end, ExportAction::Failed(ExportFault::Mark));
    let (_, end) = follow(1, &[ExportAction::Write]);
    assert_eq!(end, ExportAction::Failed(ExportFault::Write));
    let (_, end) = follow(1, &[ExportAction::ExportMarked, ExportAction::RestoreName(0)]);
    assert_eq!(end, ExportAction::Failed(ExportFault::Work));
}

fn node(handle: usize, shape_type: i32, static_id: i32, children: Vec<ShapeNode>) -> ShapeNode {
    ShapeNode {
        handle,
        shape_type,
        static_id,
        name: format!("shape {handle}"),
        visible: true,
        printable: true,
        effect_count: 0,
        transparency_type: 0,
        children,
        clipped: Vec::new(),
    }
}

#[test]
fn bitmaps_are_found_inside_of_groups() {
    let mut curve = node(1, 3, 0, Vec::new());
    curve.clipped.push(node(2, 5, 20, Vec::new()));
    let page = vec![
        node(0, 7, 0, vec![curve, node(3, 5, 30, Vec::new())]),
        node(4, 5, 20, Vec::new()),
        node(5, 9, 0, vec![node(6, 5, 60, Vec::new())]),
    ];
    assert_eq!(find_bitmap(&page, 20), Some(2));
    assert_eq!(find_bitmap(&page, 30), Some(3));
    assert_eq!(find_bitmap(&page, 60), None);
    let mut found = Vec::new();
    assert_eq!(collect_svg_bitmaps(&page, &mut found), Ok(()));
    assert_eq!(
        found,
        vec![
            FoundBitmap { handle: 2, static_id: 20 },
            FoundBitmap { handle: 3, static_id: 30 },
            FoundBitmap { handle: 6, static_id: 60 },
        ]
    );
}

#[test]
fn hidden_objects_are_not_exported() {
    let mut hidden = node(0, 7, 0, vec![node(1, 5, 10, Vec::new())]);
    hidden.visible = false;
    hidden.effect_count = 1;
    let mut found = Vec::new();
    assert_eq!(collect_svg_bitmaps(&vec![hidden], &mut found), Ok(()));
    assert!(found.is_empty());
    let mut glowing = node(1, 5, 10, Vec::new());
    glowing.effect_count = 1;
    let page = vec![node(0, 7, 0, vec![glowing])];
    assert_eq!(
        collect_svg_bitmaps(&page, &mut found),
        Err(ExportError::UnsupportedEffect("shape 1".to_owned()))
    );
}
