//! The previews of cut paths: their names, their drawings and their backgrounds.

use vstd::prelude::*;

use crate::selection::{default_settings, ProcessingSettings};
use crate::text::{
    chars_of, encoded, holds_part, is_readable, lemma_encoding_is_one_to_one, replace_char,
    replaced, stands_at,
};
use crate::trim::Rgba;

verus! {

// ---------------------------------------------------------------------------
// Settings
// ---------------------------------------------------------------------------

/// The diameter of the hole in a preview: 3 mm, as a bit pattern.
pub const PREVIEW_HOLE_DIAMETER_MM: u64 = 0x4008_0000_0000_0000;

/// What a preview is drawn with: the usual settings, but for the hole.
pub fn preview_settings() -> (res: ProcessingSettings)
    ensures
        res == (ProcessingSettings {
            hole_diameter_mm: PREVIEW_HOLE_DIAMETER_MM,
            ..default_settings()
        }),
{
    let usual = ProcessingSettings::default();
    ProcessingSettings { hole_diameter_mm: PREVIEW_HOLE_DIAMETER_MM, ..usual }
}

// ---------------------------------------------------------------------------
// XML
// ---------------------------------------------------------------------------

/// A character as it stands in the value of an attribute.
pub open spec fn xml_code(c: char) -> Seq<char> {
    if c == '&' {
        seq!['&', 'a', 'm', 'p', ';']
    } else if c == '"' {
        seq!['&', 'q', 'u', 'o', 't', ';']
    } else if c == '<' {
        seq!['&', 'l', 't', ';']
    } else if c == '>' {
        seq!['&', 'g', 't', ';']
    } else {
        seq![c]
    }
}

/// A text as it stands in the value of an attribute.
pub open spec fn xml_escaped(value: Seq<char>) -> Seq<char> {
    encoded(value, |c: char| xml_code(c))
}

/// A text as it stands in the value of an attribute.
pub fn escape_xml(value: &str) -> (res: String)
    ensures
        res@ == xml_escaped(value@),
{
    proof {
        reveal_strlit("&amp;");
        reveal_strlit("&quot;");
        reveal_strlit("&lt;");
        reveal_strlit("&gt;");
    }
    let chars = chars_of(value);
    let mut res: String = String::new();
    let ghost code = |c: char| xml_code(c);
    let ghost goal = xml_escaped(value@);
    assert(value@.skip(0) =~= value@);
    assert(res@ + goal =~= goal);
    for i in 0..chars.len()
        invariant
            chars@ == value@,
            code == (|c: char| xml_code(c)),
            res@ + encoded(value@.skip(i as int), code) == goal,
            "&amp;"@ =~= xml_code('&'),
            "&quot;"@ =~= xml_code('"'),
            "&lt;"@ =~= xml_code('<'),
            "&gt;"@ =~= xml_code('>'),
    {
        let c = chars[i];
        let ghost before = res@;
        proof {
            let rest = value@.skip(i as int);
            assert(rest[0] == c);
            assert(rest.skip(1) =~= value@.skip(i + 1));
        }
        if c == '&' {
            res.push_str("&amp;");
        } else if c == '"' {
            res.push_str("&quot;");
        } else if c == '<' {
            res.push_str("&lt;");
        } else if c == '>' {
            res.push_str("&gt;");
        } else {
            res.push(c);
        }
        assert(res@ =~= before + xml_code(c));
        proof {
            let rest = encoded(value@.skip(i + 1), code);
            assert(res@ + rest =~= before + (xml_code(c) + rest));
        }
    }
    assert(value@.skip(value@.len() as int) =~= Seq::empty());
    assert(res@ =~= goal);
    res
}

/// Texts that differ stand differently in an attribute.
pub proof fn law_xml_escaping_is_one_to_one(a: Seq<char>, b: Seq<char>)
    requires
        xml_escaped(a) == xml_escaped(b),
    ensures
        a == b,
{
    let code = |c: char| xml_code(c);
    assert forall|c: char, d: char, x: Seq<char>, y: Seq<char>|
        #![trigger code(c) + x, code(d) + y]
        code(c) + x == code(d) + y implies c == d by {
        let s = code(c) + x;
        let t = code(d) + y;
        assert(s[0] == xml_code(c)[0]);
        assert(t[0] == xml_code(d)[0]);
        if xml_code(c).len() > 1 {
            assert(s[1] == xml_code(c)[1]);
        }
        if xml_code(d).len() > 1 {
            assert(t[1] == xml_code(d)[1]);
        }
    }
    assert(is_readable(code));
    lemma_encoding_is_one_to_one(a, b, code);
}

/// An escaped text holds nothing that would end an attribute or a tag.
pub proof fn law_an_escaped_text_stays_inside_its_attribute(value: Seq<char>, i: int)
    requires
        0 <= i < xml_escaped(value).len(),
    ensures
        xml_escaped(value)[i] != '"',
        xml_escaped(value)[i] != '<',
        xml_escaped(value)[i] != '>',
    decreases value.len(),
{
    if value.len() > 0 {
        let first = xml_code(value[0]);
        if i < first.len() {
            assert(xml_escaped(value)[i] == first[i]);
        } else {
            assert(xml_escaped(value)[i] == xml_escaped(value.skip(1))[i - first.len()]);
            law_an_escaped_text_stays_inside_its_attribute(value.skip(1), i - first.len());
        }
    }
}

// ---------------------------------------------------------------------------
// Names
// ---------------------------------------------------------------------------

/// The file name of a preview.
pub open spec fn spec_preview_name(shape_path: Seq<char>, extension: Seq<char>) -> Seq<char> {
    "outline-"@ + replaced(shape_path, '.', "-"@, shape_path.len() as int) + "."@ + extension
}

/// The file name of a preview.
pub fn preview_name(shape_path: &str, extension: &str) -> (res: String)
    ensures
        res@ == spec_preview_name(shape_path@, extension@),
{
    let mut res = "outline-".to_owned();
    res.push_str(replace_char(shape_path, '.', "-").as_str());
    res.push_str(".");
    res.push_str(extension);
    res
}

/// What became of a bitmap.
pub open spec fn spec_bitmap_status(alpha_edge_available: bool) -> Seq<char> {
    if alpha_edge_available {
        "combined_preview_generated"@
    } else {
        "no_transparent_pixels"@
    }
}

/// What became of a bitmap.
pub fn bitmap_status(alpha_edge_available: bool) -> (res: &'static str)
    ensures
        res@ == spec_bitmap_status(alpha_edge_available),
{
    if alpha_edge_available {
        "combined_preview_generated"
    } else {
        "no_transparent_pixels"
    }
}

/// Whether a picture has the size that the inventory tells; the error names the object.
pub fn check_dimensions(shape_path: &str, size: (u32, u32), expected: (u32, u32)) -> (res: Result<
    (),
    String,
>)
    ensures
        match res {
            Ok(_) => size == expected,
            Err(message) => size != expected && message@ == shape_path@
                + " dimensions differ from the CDR inventory"@,
        },
{
    if size.0 == expected.0 && size.1 == expected.1 {
        return Ok(());
    }
    let mut message = shape_path.to_owned();
    message.push_str(" dimensions differ from the CDR inventory");
    Err(message)
}

/// Why a command line is refused.
pub open spec fn argument_fault(count: nat) -> Option<Seq<char>> {
    if count < 2 {
        Some("usage: cdr-raster <inventory.json> <raster-report.json>"@)
    } else if count > 2 {
        Some("too many arguments"@)
    } else {
        None
    }
}

/// Whether a command line has the right number of arguments.
pub fn check_arguments(count: usize) -> (res: Result<(), &'static str>)
    ensures
        match res {
            Ok(_) => argument_fault(count as nat) is None,
            Err(message) => argument_fault(count as nat) == Some(message@),
        },
{
    if count < 2 {
        Err("usage: cdr-raster <inventory.json> <raster-report.json>")
    } else if count > 2 {
        Err("too many arguments")
    } else {
        Ok(())
    }
}

// ---------------------------------------------------------------------------
// Drawings
// ---------------------------------------------------------------------------

/// A point as it is written.
#[derive(Debug, Clone)]
pub struct SvgPoint {
    pub x: String,
    pub y: String,
}

/// A segment as it is written: where it leads, and how.
#[derive(Debug, Clone)]
pub enum SvgSegment {
    Line { end: SvgPoint },
    Curve { control_start: SvgPoint, control_end: SvgPoint, end: SvgPoint },
}

/// A point: its coordinates with a space between them.
pub open spec fn drawn_point(point: SvgPoint) -> Seq<char> {
    point.x@ + " "@ + point.y@
}

fn push_point(path: &mut String, point: &SvgPoint)
    ensures
        final(path)@ == old(path)@ + drawn_point(*point),
{
    path.push_str(point.x.as_str());
    path.push_str(" ");
    path.push_str(point.y.as_str());
    assert(path@ =~= old(path)@ + drawn_point(*point));
}

/// The first `end` points of a ring, each one but the first with a line to it.
pub open spec fn drawn_points(points: Seq<SvgPoint>, end: int) -> Seq<char>
    decreases end,
{
    if end <= 0 {
        Seq::empty()
    } else if end == 1 {
        "M"@ + drawn_point(points[0])
    } else {
        drawn_points(points, end - 1) + "L"@ + drawn_point(points[end - 1])
    }
}

/// A ring; nothing if it has no point.
pub open spec fn drawn_ring(points: Seq<SvgPoint>) -> Seq<char> {
    if points.len() == 0 {
        Seq::empty()
    } else {
        drawn_points(points, points.len() as int) + "Z"@
    }
}

/// Appends a ring to the data of a path.
pub fn append_svg_ring(path: &mut String, points: &Vec<SvgPoint>)
    ensures
        final(path)@ == old(path)@ + drawn_ring(points@),
{
    if points.len() == 0 {
        assert(path@ =~= old(path)@ + drawn_ring(points@));
        return;
    }
    let ghost start = path@;
    path.push_str("M");
    push_point(path, &points[0]);
    assert(path@ =~= start + drawn_points(points@, 1));
    let mut i: usize = 1;
    while i < points.len()
        invariant
            1 <= i <= points@.len(),
            path@ == start + drawn_points(points@, i as int),
        decreases points@.len() - i,
    {
        let ghost before = path@;
        path.push_str("L");
        push_point(path, &points[i]);
        assert(path@ =~= start + drawn_points(points@, i + 1));
        i = i + 1;
    }
    path.push_str("Z");
    assert(path@ =~= start + drawn_ring(points@));
}

/// A segment.
pub open spec fn drawn_segment(segment: SvgSegment) -> Seq<char> {
    match segment {
        SvgSegment::Line { end } => "L"@ + drawn_point(end),
        SvgSegment::Curve { control_start, control_end, end } => "C"@ + drawn_point(control_start)
            + " "@ + drawn_point(control_end) + " "@ + drawn_point(end),
    }
}

/// The first `end` segments of a closed path.
pub open spec fn drawn_segments(segments: Seq<SvgSegment>, end: int) -> Seq<char>
    decreases end,
{
    if end <= 0 {
        Seq::empty()
    } else {
        drawn_segments(segments, end - 1) + drawn_segment(segments[end - 1])
    }
}

/// A closed path from `start` on; nothing if it has no segment.
pub open spec fn drawn_path(start: SvgPoint, segments: Seq<SvgSegment>) -> Seq<char> {
    if segments.len() == 0 {
        Seq::empty()
    } else {
        "M"@ + drawn_point(start) + drawn_segments(segments, segments.len() as int) + "Z"@
    }
}

/// Appends a closed path to the data of a path.
pub fn append_svg_curve_path(path: &mut String, start: &SvgPoint, segments: &Vec<SvgSegment>)
    ensures
        final(path)@ == old(path)@ + drawn_path(*start, segments@),
{
    if segments.len() == 0 {
        assert(path@ =~= old(path)@ + drawn_path(*start, segments@));
        return;
    }
    path.push_str("M");
    push_point(path, start);
    let ghost head = path@;
    assert(head =~= old(path)@ + ("M"@ + drawn_point(*start)));
    assert(head =~= head + drawn_segments(segments@, 0));
    for i in 0..segments.len()
        invariant
            path@ == head + drawn_segments(segments@, i as int),
    {
        let ghost before = path@;
        match &segments[i] {
            SvgSegment::Line { end } => {
                path.push_str("L");
                push_point(path, end);
            },
            SvgSegment::Curve { control_start, control_end, end } => {
                path.push_str("C");
                push_point(path, control_start);
                path.push_str(" ");
                push_point(path, control_end);
                path.push_str(" ");
                push_point(path, end);
            },
        }
        assert(path@ =~= before + drawn_segment(segments@[i as int]));
        assert(path@ =~= head + drawn_segments(segments@, i + 1));
    }
    path.push_str("Z");
    assert(path@ =~= old(path)@ + drawn_path(*start, segments@));
}

/// The measurements of a preview, as they are written.
#[derive(Debug, Clone)]
pub struct SvgFrame {
    pub min_x: String,
    pub min_y: String,
    pub width: String,
    pub height: String,
    pub image_width: String,
    pub image_height: String,
}

/// A picture's path as a reference.
pub open spec fn spec_image_reference(path: Seq<char>) -> Seq<char> {
    xml_escaped(replaced(path, '\\', "/"@, path.len() as int))
}

/// A preview: a checkered background, the picture and the cut path over it.
pub open spec fn spec_outline_svg(
    frame: SvgFrame,
    image_path: Seq<char>,
    path_data: Seq<char>,
) -> Seq<char> {
    "<svg xmlns=\"http://www.w3.org/2000/svg\" width=\""@ + frame.width@ + "mm\" height=\""@
        + frame.height@ + "mm\" viewBox=\""@ + frame.min_x@ + " "@ + frame.min_y@ + " "@
        + frame.width@ + " "@ + frame.height@ + "\">\n"@
        + "  <defs><pattern id=\"checker\" width=\"4\" height=\"4\" patternUnits=\"userSpaceOnUse\"><rect width=\"4\" height=\"4\" fill=\"#ffffff\"/><path d=\"M0 0h2v2H0zM2 2h2v2H2z\" fill=\"#eeeeee\"/></pattern></defs>\n"@
        + "  <rect x=\""@ + frame.min_x@ + "\" y=\""@ + frame.min_y@ + "\" width=\""@
        + frame.width@ + "\" height=\""@ + frame.height@ + "\" fill=\"url(#checker)\"/>\n"@
        + "  <image href=\""@ + spec_image_reference(image_path)
        + "\" x=\"0\" y=\"0\" width=\""@ + frame.image_width@ + "\" height=\""@
        + frame.image_height@ + "\" preserveAspectRatio=\"none\"/>\n"@ + "  <path d=\""@
        + path_data
        + "\" fill=\"none\" fill-rule=\"evenodd\" stroke=\"#EC2A90\" stroke-width=\"0.076\" stroke-linejoin=\"round\" stroke-linecap=\"round\"/>\n"@
        + "</svg>\n"@
}

/// A preview.
pub fn outline_svg(frame: &SvgFrame, image_path: &str, path_data: &str) -> (res: String)
    ensures
        res@ == spec_outline_svg(*frame, image_path@, path_data@),
{
    let mut res = "<svg xmlns=\"http://www.w3.org/2000/svg\" width=\"".to_owned();
    res.push_str(frame.width.as_str());
    res.push_str("mm\" height=\"");
    res.push_str(frame.height.as_str());
    res.push_str("mm\" viewBox=\"");
    res.push_str(frame.min_x.as_str());
    res.push_str(" ");
    res.push_str(frame.min_y.as_str());
    res.push_str(" ");
    res.push_str(frame.width.as_str());
    res.push_str(" ");
    res.push_str(frame.height.as_str());
    res.push_str("\">\n");
    res.push_str(
        "  <defs><pattern id=\"checker\" width=\"4\" height=\"4\" patternUnits=\"userSpaceOnUse\"><rect width=\"4\" height=\"4\" fill=\"#ffffff\"/><path d=\"M0 0h2v2H0zM2 2h2v2H2z\" fill=\"#eeeeee\"/></pattern></defs>\n",
    );
    res.push_str("  <rect x=\"");
    res.push_str(frame.min_x.as_str());
    res.push_str("\" y=\"");
    res.push_str(frame.min_y.as_str());
    res.push_str("\" width=\"");
    res.push_str(frame.width.as_str());
    res.push_str("\" height=\"");
    res.push_str(frame.height.as_str());
    res.push_str("\" fill=\"url(#checker)\"/>\n");
    res.push_str("  <image href=\"");
    let reference = replace_char(image_path, '\\', "/");
    res.push_str(escape_xml(reference.as_str()).as_str());
    res.push_str("\" x=\"0\" y=\"0\" width=\"");
    res.push_str(frame.image_width.as_str());
    res.push_str("\" height=\"");
    res.push_str(frame.image_height.as_str());
    res.push_str("\" preserveAspectRatio=\"none\"/>\n");
    res.push_str("  <path d=\"");
    res.push_str(path_data);
    res.push_str(
        "\" fill=\"none\" fill-rule=\"evenodd\" stroke=\"#EC2A90\" stroke-width=\"0.076\" stroke-linejoin=\"round\" stroke-linecap=\"round\"/>\n",
    );
    res.push_str("</svg>\n");
    res
}

/// The shade of the background of a preview.
pub open spec fn checker_shade(x: int, y: int) -> int {
    if (x / 16 + y / 16) % 2 == 0 {
        255
    } else {
        238
    }
}

/// The background of a preview: white and gray squares of sixteen pixels.
pub fn checker_pixel(x: u32, y: u32) -> (res: Rgba)
    ensures
        res.alpha == 255,
        res.red == res.green && res.green == res.blue,
        res.red == (if (x as int / 16 + y as int / 16) % 2 == 0 {
            255
        } else {
            238int
        }),
        res.red == checker_shade(x as int, y as int),
{
    let shade: u8 = if (x / 16 + y / 16) % 2 == 0 {
        255
    } else {
        238
    };
    Rgba { red: shade, green: shade, blue: shade, alpha: 255 }
}

// ---------------------------------------------------------------------------
// What is drawn
// ---------------------------------------------------------------------------

/// What a reader of XML makes of the value of an attribute.
pub open spec fn xml_read(s: Seq<char>) -> Seq<char>
    decreases s.len(),
{
    if s.len() == 0 {
        Seq::empty()
    } else if stands_at(s, seq!['&', 'a', 'm', 'p', ';'], 0) {
        seq!['&'] + xml_read(s.skip(5))
    } else if stands_at(s, seq!['&', 'q', 'u', 'o', 't', ';'], 0) {
        seq!['"'] + xml_read(s.skip(6))
    } else if stands_at(s, seq!['&', 'l', 't', ';'], 0) {
        seq!['<'] + xml_read(s.skip(4))
    } else if stands_at(s, seq!['&', 'g', 't', ';'], 0) {
        seq!['>'] + xml_read(s.skip(4))
    } else {
        seq![s[0]] + xml_read(s.skip(1))
    }
}

proof fn lemma_other_code(whole: Seq<char>, code: Seq<char>, k: int)
    requires
        0 <= k < code.len(),
        k < whole.len(),
        whole[k] != code[k],
    ensures
        !stands_at(whole, code, 0),
{
    if stands_at(whole, code, 0) {
        assert(whole.subrange(0, code.len() as int)[k] == whole[k]);
    }
}

/// A reader of XML reads what was written.
pub proof fn law_attributes_read_back(value: Seq<char>)
    ensures
        xml_read(xml_escaped(value)) == value,
    decreases value.len(),
{
    if value.len() > 0 {
        let c = value[0];
        let code = xml_code(c);
        let rest = xml_escaped(value.skip(1));
        let whole = xml_escaped(value);
        assert(whole == code + rest);
        law_attributes_read_back(value.skip(1));
        assert(whole.subrange(0, code.len() as int) =~= code);
        assert(whole.skip(code.len() as int) =~= rest);
        assert(whole[0] == code[0]);
        let amp = seq!['&', 'a', 'm', 'p', ';'];
        let quot = seq!['&', 'q', 'u', 'o', 't', ';'];
        let lt = seq!['&', 'l', 't', ';'];
        let gt = seq!['&', 'g', 't', ';'];
        if c == '&' {
            assert(stands_at(whole, amp, 0));
        } else if c == '"' {
            assert(whole[1] == code[1]);
            lemma_other_code(whole, amp, 1);
            assert(stands_at(whole, quot, 0));
        } else if c == '<' {
            assert(whole[1] == code[1]);
            lemma_other_code(whole, amp, 1);
            lemma_other_code(whole, quot, 1);
            assert(stands_at(whole, lt, 0));
        } else if c == '>' {
            assert(whole[1] == code[1]);
            lemma_other_code(whole, amp, 1);
            lemma_other_code(whole, quot, 1);
            lemma_other_code(whole, lt, 1);
            assert(stands_at(whole, gt, 0));
        } else {
            lemma_other_code(whole, amp, 0);
            lemma_other_code(whole, quot, 0);
            lemma_other_code(whole, lt, 0);
            lemma_other_code(whole, gt, 0);
        }
        assert(xml_read(whole) == seq![c] + xml_read(rest));
        assert(value =~= seq![c] + value.skip(1));
    }
}

/// A ring starts with a move to its first point, has a line to each of the others, in order, and
/// is closed in the end.
pub proof fn law_rings_visit_their_points(points: Seq<SvgPoint>, more: SvgPoint)
    ensures
        drawn_ring(Seq::empty()) == Seq::<char>::empty(),
        drawn_ring(seq![more]) == "M"@ + (more.x@ + " "@ + more.y@) + "Z"@,
        points.len() > 0 ==> exists|open: Seq<char>|
            drawn_ring(points) == #[trigger] (open + "Z"@) && drawn_ring(points.push(more)) == open
                + "L"@ + (more.x@ + " "@ + more.y@) + "Z"@,
{
    if points.len() > 0 {
        let open = drawn_points(points, points.len() as int);
        lemma_drawn_prefix(points, points.push(more), points.len() as int);
        assert(drawn_ring(points) == open + "Z"@);
    }
}

proof fn lemma_drawn_prefix(a: Seq<SvgPoint>, b: Seq<SvgPoint>, end: int)
    requires
        0 <= end <= a.len(),
        end <= b.len(),
        forall|i: int| 0 <= i < end ==> a[i] == b[i],
    ensures
        drawn_points(a, end) == drawn_points(b, end),
    decreases end,
{
    if end > 1 {
        lemma_drawn_prefix(a, b, end - 1);
    }
}

/// A closed path starts with a move to its start, has its segments in order, a curve with its
/// control points before its end, and is closed in the end.
pub proof fn law_paths_follow_their_segments(
    start: SvgPoint,
    segments: Seq<SvgSegment>,
    a: SvgPoint,
    b: SvgPoint,
    end: SvgPoint,
)
    ensures
        ({
            let begin = "M"@ + (start.x@ + " "@ + start.y@);
            let line = segments.push(SvgSegment::Line { end });
            let curve = segments.push(
                SvgSegment::Curve { control_start: a, control_end: b, end },
            );
            exists|middle: Seq<char>|
                #![trigger begin + middle]
                {
                    &&& segments.len() > 0 ==> drawn_path(start, segments) == begin + middle
                        + "Z"@
                    &&& segments.len() == 0 ==> middle.len() == 0
                    &&& drawn_path(start, line) == begin + (middle + ("L"@ + (end.x@ + " "@
                        + end.y@))) + "Z"@
                    &&& drawn_path(start, curve) == begin + (middle + ("C"@ + (a.x@ + " "@ + a.y@)
                        + " "@ + (b.x@ + " "@ + b.y@) + " "@ + (end.x@ + " "@ + end.y@))) + "Z"@
                }
        }),
{
    let begin = "M"@ + (start.x@ + " "@ + start.y@);
    let n = segments.len() as int;
    let middle = drawn_segments(segments, n);
    let line = segments.push(SvgSegment::Line { end });
    let curve = segments.push(SvgSegment::Curve { control_start: a, control_end: b, end });
    lemma_segments_prefix(segments, line, n);
    lemma_segments_prefix(segments, curve, n);
    assert(drawn_path(start, line) == begin + drawn_segments(line, n + 1) + "Z"@);
    assert(drawn_path(start, curve) == begin + drawn_segments(curve, n + 1) + "Z"@);
    assert(begin + middle == begin + middle);
}

proof fn lemma_segments_prefix(a: Seq<SvgSegment>, b: Seq<SvgSegment>, end: int)
    requires
        0 <= end <= a.len(),
        end <= b.len(),
        forall|i: int| 0 <= i < end ==> a[i] == b[i],
    ensures
        drawn_segments(a, end) == drawn_segments(b, end),
    decreases end,
{
    if end > 0 {
        lemma_segments_prefix(a, b, end - 1);
    }
}

/// A path's dots are written as dashes in the name of its preview, and everything else is
/// written as it is, so that the last dot is that before the extension.
pub proof fn law_previews_are_called_like_their_objects(shape_path: Seq<char>, extension: Seq<char>)
    ensures
        ({
            let name = spec_preview_name(shape_path, extension);
            let from = "outline-"@.len() as int;
            &&& name.len() == from + shape_path.len() + 1 + extension.len()
            &&& name.take(from) == "outline-"@
            &&& name[from + shape_path.len()] == '.'
            &&& name.skip(from + shape_path.len() + 1) == extension
            &&& forall|i: int|
                0 <= i < shape_path.len() ==> #[trigger] name[from + i] == (if shape_path[i] == '.' {
                    '-'
                } else {
                    shape_path[i]
                })
        }),
{
    reveal_strlit("outline-");
    reveal_strlit(".");
    reveal_strlit("-");
    let name = spec_preview_name(shape_path, extension);
    let from = "outline-"@.len() as int;
    lemma_one_for_one(shape_path, '.', "-"@, shape_path.len() as int);
    assert(name.take(from) =~= "outline-"@);
    assert(name.skip(from + shape_path.len() + 1) =~= extension);
}

proof fn lemma_one_for_one(s: Seq<char>, c: char, by: Seq<char>, end: int)
    requires
        0 <= end <= s.len(),
        by.len() == 1,
    ensures
        replaced(s, c, by, end).len() == end,
        forall|i: int|
            0 <= i < end ==> #[trigger] replaced(s, c, by, end)[i] == (if s[i] == c {
                by[0]
            } else {
                s[i]
            }),
    decreases end,
{
    if end > 0 {
        lemma_one_for_one(s, c, by, end - 1);
    }
}

/// Whoever reads the reference to a picture reads the picture's path with slashes.
pub proof fn law_pictures_are_referred_to_with_slashes(path: Seq<char>)
    ensures
        ({
            let shown = xml_read(spec_image_reference(path));
            &&& shown.len() == path.len()
            &&& forall|i: int|
                0 <= i < path.len() ==> #[trigger] shown[i] == (if path[i] == '\\' {
                    '/'
                } else {
                    path[i]
                })
        }),
{
    reveal_strlit("/");
    lemma_one_for_one(path, '\\', "/"@, path.len() as int);
    law_attributes_read_back(replaced(path, '\\', "/"@, path.len() as int));
}

/// A preview is as large as its frame, shows the part of the plane that is in the frame, and
/// has the picture in its size at the origin under the cut path.
pub proof fn law_previews_show_what_is_in_their_frame(
    frame: SvgFrame,
    image_path: Seq<char>,
    path_data: Seq<char>,
)
    ensures
        ({
            let svg = spec_outline_svg(frame, image_path, path_data);
            &&& holds_part(
                svg,
                "mm\" viewBox=\""@ + frame.min_x@ + " "@ + frame.min_y@ + " "@ + frame.width@ + " "@
                    + frame.height@ + "\">\n"@,
            )
            &&& holds_part(
                svg,
                "<svg xmlns=\"http://www.w3.org/2000/svg\" width=\""@ + frame.width@
                    + "mm\" height=\""@ + frame.height@ + "mm\" viewBox=\""@,
            )
            &&& holds_part(
                svg,
                "  <rect x=\""@ + frame.min_x@ + "\" y=\""@ + frame.min_y@ + "\" width=\""@
                    + frame.width@ + "\" height=\""@ + frame.height@
                    + "\" fill=\"url(#checker)\"/>\n"@,
            )
            &&& holds_part(
                svg,
                "\" x=\"0\" y=\"0\" width=\""@ + frame.image_width@ + "\" height=\""@
                    + frame.image_height@ + "\" preserveAspectRatio=\"none\"/>\n"@,
            )
            &&& holds_part(svg, "  <image href=\""@ + spec_image_reference(image_path))
            &&& holds_part(svg, "  <path d=\""@ + path_data)
        }),
{
    let svg = spec_outline_svg(frame, image_path, path_data);
    let w = frame.width@;
    let h = frame.height@;
    let x = frame.min_x@;
    let y = frame.min_y@;
    let size = "<svg xmlns=\"http://www.w3.org/2000/svg\" width=\""@ + w + "mm\" height=\""@ + h;
    let view = "mm\" viewBox=\""@ + x + " "@ + y + " "@ + w + " "@ + h + "\">\n"@;
    let background = "  <rect x=\""@ + x + "\" y=\""@ + y + "\" width=\""@ + w + "\" height=\""@ + h
        + "\" fill=\"url(#checker)\"/>\n"@;
    let image = "  <image href=\""@ + spec_image_reference(image_path);
    let place = "\" x=\"0\" y=\"0\" width=\""@ + frame.image_width@ + "\" height=\""@
        + frame.image_height@ + "\" preserveAspectRatio=\"none\"/>\n"@;
    let path = "  <path d=\""@ + path_data;
    let pattern =
        "  <defs><pattern id=\"checker\" width=\"4\" height=\"4\" patternUnits=\"userSpaceOnUse\"><rect width=\"4\" height=\"4\" fill=\"#ffffff\"/><path d=\"M0 0h2v2H0zM2 2h2v2H2z\" fill=\"#eeeeee\"/></pattern></defs>\n"@;
    let stroke =
        "\" fill=\"none\" fill-rule=\"evenodd\" stroke=\"#EC2A90\" stroke-width=\"0.076\" stroke-linejoin=\"round\" stroke-linecap=\"round\"/>\n"@;
    lemma_nine(
        size,
        "mm\" viewBox=\""@,
        x,
        " "@,
        y,
        " "@,
        w,
        " "@,
        h,
        "\">\n"@,
    );
    let upper = size + view + pattern;
    lemma_nine(
        upper,
        "  <rect x=\""@,
        x,
        "\" y=\""@,
        y,
        "\" width=\""@,
        w,
        "\" height=\""@,
        h,
        "\" fill=\"url(#checker)\"/>\n"@,
    );
    let middle = upper + background;
    lemma_two(middle, "  <image href=\""@, spec_image_reference(image_path));
    lemma_five(
        middle + image,
        "\" x=\"0\" y=\"0\" width=\""@,
        frame.image_width@,
        "\" height=\""@,
        frame.image_height@,
        "\" preserveAspectRatio=\"none\"/>\n"@,
    );
    lemma_two(middle + image + place, "  <path d=\""@, path_data);
    lemma_two(middle + image + place + path, stroke, "</svg>\n"@);
    assert(svg == size + view + pattern + background + image + place + path + (stroke
        + "</svg>\n"@));
    lemma_all_inside(size, view, pattern, background, image, place, path, stroke + "</svg>\n"@);
    assert(view.take("mm\" viewBox=\""@.len() as int) =~= "mm\" viewBox=\""@);
    lemma_begins_with(
        size,
        "mm\" viewBox=\""@,
        view,
        pattern,
        background,
        image,
        place,
        path,
        stroke + "</svg>\n"@,
    );
}

proof fn lemma_two(s: Seq<char>, a: Seq<char>, b: Seq<char>)
    ensures
        s + a + b == s + (a + b),
{
    assert(s + a + b =~= s + (a + b));
}

proof fn lemma_five(
    s: Seq<char>,
    a: Seq<char>,
    b: Seq<char>,
    c: Seq<char>,
    d: Seq<char>,
    e: Seq<char>,
)
    ensures
        s + a + b + c + d + e == s + (a + b + c + d + e),
{
    lemma_two(s, a, b);
    lemma_two(s, a + b, c);
    lemma_two(s, a + b + c, d);
    lemma_two(s, a + b + c + d, e);
}

proof fn lemma_nine(
    s: Seq<char>,
    a: Seq<char>,
    b: Seq<char>,
    c: Seq<char>,
    d: Seq<char>,
    e: Seq<char>,
    f: Seq<char>,
    g: Seq<char>,
    h: Seq<char>,
    i: Seq<char>,
)
    ensures
        s + a + b + c + d + e + f + g + h + i == s + (a + b + c + d + e + f + g + h + i),
{
    lemma_five(s, a, b, c, d, e);
    lemma_five(s, a + b + c + d + e, f, g, h, i);
}

/// What is put together of parts holds each of them.
proof fn lemma_all_inside(
    a: Seq<char>,
    b: Seq<char>,
    c: Seq<char>,
    d: Seq<char>,
    e: Seq<char>,
    f: Seq<char>,
    g: Seq<char>,
    h: Seq<char>,
)
    ensures
        holds_part(a + b + c + d + e + f + g + h, b),
        holds_part(a + b + c + d + e + f + g + h, d),
        holds_part(a + b + c + d + e + f + g + h, e),
        holds_part(a + b + c + d + e + f + g + h, f),
        holds_part(a + b + c + d + e + f + g + h, g),
{
    let s = a + b + c + d + e + f + g + h;
    lemma_inside(s, a + b + c + d + e + f, g, h);
    lemma_two(a + b + c + d + e + f, g, h);
    lemma_inside(s, a + b + c + d + e, f, g + h);
    lemma_inside(s, a + b + c + d, e, f + g + h);
    lemma_inside(s, a + b + c, d, e + f + g + h);
    lemma_inside(s, a, b, c + d + e + f + g + h);
}

/// What is put together of parts holds its first part with the beginning of the second.
proof fn lemma_begins_with(
    a: Seq<char>,
    start: Seq<char>,
    b: Seq<char>,
    c: Seq<char>,
    d: Seq<char>,
    e: Seq<char>,
    f: Seq<char>,
    g: Seq<char>,
    h: Seq<char>,
)
    requires
        b.len() >= start.len(),
        b.take(start.len() as int) == start,
    ensures
        holds_part(a + b + c + d + e + f + g + h, a + start),
{
    let s = a + b + c + d + e + f + g + h;
    assert(s.subrange(0, (a + start).len() as int) =~= a + start) by {
        assert(forall|k: int| 0 <= k < start.len() ==> b[k] == b.take(start.len() as int)[k]);
    }
    assert(stands_at(s, a + start, 0));
}

proof fn lemma_inside(s: Seq<char>, front: Seq<char>, part: Seq<char>, back: Seq<char>)
    requires
        s =~= front + part + back,
    ensures
        holds_part(s, part),
{
    assert(s.subrange(front.len() as int, (front.len() + part.len()) as int) =~= part);
    assert(stands_at(s, part, front.len() as int));
}

/// The background of a preview is made of squares of sixteen pixels, each of one shade, and
/// two squares beside or above each other differ.
pub proof fn law_backgrounds_are_checkered(x: int, y: int, i: int, j: int)
    requires
        0 <= i < 16,
        0 <= j < 16,
    ensures
        checker_shade(16 * x + i, 16 * y + j) == checker_shade(16 * x, 16 * y),
        checker_shade(16 * x + 16, 16 * y) != checker_shade(16 * x, 16 * y),
        checker_shade(16 * x, 16 * y + 16) != checker_shade(16 * x, 16 * y),
        checker_shade(i, j) == 255,
{
}

} // verus!
