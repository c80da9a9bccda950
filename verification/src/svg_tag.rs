//! Tags of an SVG document: where they end, what their attributes are, and how an
//! attribute is replaced or added.

use vstd::prelude::*;

use crate::scan::{
    ascii, ascii_bytes, last_at, lemma_run_behind, lemma_run_end, lemma_run_end_is, range_is,
    rfind, run_end, skip_run, ByteClass,
};
use crate::text::{append_range, stands_at};

verus! {

/// What is wrong with an SVG document that CorelDRAW exported.
#[derive(Debug, Clone, Copy, PartialEq, Eq, Structural)]
pub enum SvgFault {
    /// A tag has no closing angle bracket.
    OpenTag,
    /// An attribute value is not quoted.
    MissingQuote,
    /// An attribute value has no closing quote.
    OpenValue,
    /// An image tag has no `href` attribute.
    MissingHref,
    /// An image stands in a nested viewport.
    NestedViewport,
    /// A transform does not start with a function name.
    TransformName,
    /// A transform function has no opening bracket.
    TransformOpening,
    /// A transform function has no closing bracket.
    TransformClosing,
    /// A transform function is unknown or has the wrong number of arguments.
    TransformArguments,
    /// A number has no digits.
    Number,
    /// An exponent has no digits.
    Exponent,
    /// A number is too large to be finite.
    NotFinite,
    /// A coordinate is not a single number.
    NotSingle,
    /// An image is not wider or not higher than zero.
    EmptyRectangle,
    /// The matrix around an image has no inverse.
    Singular,
    /// Images and mapped bitmaps differ in number.
    MappingCount,
    /// A mapped bitmap has no picture.
    MissingPicture,
}

impl SvgFault {
    /// The text shown for the fault.
    pub open spec fn spec_message(self) -> Seq<char> {
        match self {
            SvgFault::OpenTag => "SVG image 标签不完整"@,
            SvgFault::MissingQuote => "SVG 属性引号不完整"@,
            SvgFault::OpenValue => "SVG 属性值不完整"@,
            SvgFault::MissingHref => "SVG image 缺少 href 属性"@,
            SvgFault::NestedViewport => "不支持嵌套 SVG 视口中的位图"@,
            SvgFault::TransformName => "SVG transform 语法不受支持"@,
            SvgFault::TransformOpening => "SVG transform 缺少左括号"@,
            SvgFault::TransformClosing => "SVG transform 缺少右括号"@,
            SvgFault::TransformArguments => "SVG transform 参数数量或类型无效"@,
            SvgFault::Number => "SVG transform 数值无效"@,
            SvgFault::Exponent => "SVG transform 指数无效"@,
            SvgFault::NotFinite => "SVG transform 数值不是有限值"@,
            SvgFault::NotSingle => "SVG 位图坐标不是单一数值"@,
            SvgFault::EmptyRectangle => "SVG 位图矩形尺寸无效"@,
            SvgFault::Singular => "SVG 位图父级变换矩阵不可逆"@,
            SvgFault::MappingCount => "SVG 位图映射数量不匹配"@,
            SvgFault::MissingPicture => "Corel SVG 位图映射引用了不存在的 PNG"@,
        }
    }

    /// The text shown for the fault.
    pub fn message(self) -> (res: String)
        ensures
            res@ == self.spec_message(),
    {
        match self {
            SvgFault::OpenTag => "SVG image 标签不完整".to_owned(),
            SvgFault::MissingQuote => "SVG 属性引号不完整".to_owned(),
            SvgFault::OpenValue => "SVG 属性值不完整".to_owned(),
            SvgFault::MissingHref => "SVG image 缺少 href 属性".to_owned(),
            SvgFault::NestedViewport => "不支持嵌套 SVG 视口中的位图".to_owned(),
            SvgFault::TransformName => "SVG transform 语法不受支持".to_owned(),
            SvgFault::TransformOpening => "SVG transform 缺少左括号".to_owned(),
            SvgFault::TransformClosing => "SVG transform 缺少右括号".to_owned(),
            SvgFault::TransformArguments => "SVG transform 参数数量或类型无效".to_owned(),
            SvgFault::Number => "SVG transform 数值无效".to_owned(),
            SvgFault::Exponent => "SVG transform 指数无效".to_owned(),
            SvgFault::NotFinite => "SVG transform 数值不是有限值".to_owned(),
            SvgFault::NotSingle => "SVG 位图坐标不是单一数值".to_owned(),
            SvgFault::EmptyRectangle => "SVG 位图矩形尺寸无效".to_owned(),
            SvgFault::Singular => "SVG 位图父级变换矩阵不可逆".to_owned(),
            SvgFault::MappingCount => "SVG 位图映射数量不匹配".to_owned(),
            SvgFault::MissingPicture => "Corel SVG 位图映射引用了不存在的 PNG".to_owned(),
        }
    }
}

// ---------------------------------------------------------------------------
// The end of a tag
// ---------------------------------------------------------------------------

/// Where the first closing angle bracket stands at or after `at` that is outside
/// quotes; `quote` is the quote that is open at `at`.
pub open spec fn tag_close(bytes: Seq<u8>, at: int, quote: Option<u8>) -> Option<int>
    decreases bytes.len() - at,
{
    if at >= bytes.len() {
        None
    } else {
        match quote {
            Some(open) => tag_close(bytes, at + 1, if bytes[at] == open { None } else { quote }),
            None => if bytes[at] == 0x22 || bytes[at] == 0x27 {
                tag_close(bytes, at + 1, Some(bytes[at]))
            } else if bytes[at] == 0x3e {
                Some(at)
            } else {
                tag_close(bytes, at + 1, None)
            },
        }
    }
}

/// Where the tag that starts at `start` ends: behind the first closing angle bracket
/// outside quotes.
pub fn svg_tag_end(bytes: &[u8], start: usize) -> (res: Result<usize, SvgFault>)
    ensures
        match res {
            Ok(end) => tag_close(bytes@, start + 1, None) == Some(end - 1),
            Err(fault) => tag_close(bytes@, start + 1, None) is None && fault == SvgFault::OpenTag,
        },
        res matches Ok(end) ==> start + 1 < end <= bytes@.len(),
{
    if start >= bytes.len() {
        return Err(SvgFault::OpenTag);
    }
    let mut quote: Option<u8> = None;
    let mut at: usize = start + 1;
    while at < bytes.len()
        invariant
            start + 1 <= at <= bytes@.len(),
            tag_close(bytes@, start + 1, None) == tag_close(bytes@, at as int, quote),
        decreases bytes@.len() - at,
    {
        let byte = bytes[at];
        match quote {
            Some(open) => {
                if byte == open {
                    quote = None;
                }
            },
            None => {
                if byte == 0x22 || byte == 0x27 {
                    quote = Some(byte);
                } else if byte == 0x3e {
                    return Ok(at + 1);
                }
            },
        }
        at = at + 1;
    }
    Err(SvgFault::OpenTag)
}

// ---------------------------------------------------------------------------
// Attributes
// ---------------------------------------------------------------------------

/// What one step through the attributes of a tag finds at `cursor`.
pub enum AttributeStep {
    /// The attributes are over.
    End,
    /// A name without a value; the scan goes on at `next`.
    Bare { next: int },
    /// A name from `name` up to `name_end` with a value from `value` up to `value_end`.
    Valued { name: int, name_end: int, value: int, value_end: int },
    Fault(SvgFault),
}

/// The attribute at `cursor`.
pub open spec fn attribute_step(tag: Seq<u8>, cursor: int) -> AttributeStep {
    let name = run_end(tag, cursor, ByteClass::SpaceOrSlash);
    if name >= tag.len() || tag[name] == 0x3e {
        AttributeStep::End
    } else {
        let name_end = run_end(tag, name, ByteClass::AttributeName);
        let sign = run_end(tag, name_end, ByteClass::Space);
        if sign >= tag.len() || tag[sign] != 0x3d {
            AttributeStep::Bare { next: run_end(tag, sign, ByteClass::NotTagClose) }
        } else {
            let quote = run_end(tag, sign + 1, ByteClass::Space);
            if quote >= tag.len() || (tag[quote] != 0x22 && tag[quote] != 0x27) {
                AttributeStep::Fault(SvgFault::MissingQuote)
            } else {
                let value_end = run_end(tag, quote + 1, ByteClass::Not(tag[quote]));
                if value_end >= tag.len() {
                    AttributeStep::Fault(SvgFault::OpenValue)
                } else {
                    AttributeStep::Valued { name, name_end, value: quote + 1, value_end }
                }
            }
        }
    }
}

/// A step goes forward and stays in the tag.
pub proof fn lemma_attribute_step(tag: Seq<u8>, cursor: int)
    ensures
        attribute_step(tag, cursor) matches AttributeStep::Bare { next } ==> cursor < next
            <= tag.len(),
        attribute_step(tag, cursor) matches AttributeStep::Valued {
            name,
            name_end,
            value,
            value_end,
        } ==> {
            &&& cursor <= name <= name_end < value <= value_end < tag.len()
            &&& tag[value_end] == tag[value - 1]
        },
{
    let name = run_end(tag, cursor, ByteClass::SpaceOrSlash);
    lemma_run_end(tag, cursor, ByteClass::SpaceOrSlash);
    if name < tag.len() && tag[name] != 0x3e {
        let name_end = run_end(tag, name, ByteClass::AttributeName);
        lemma_run_end(tag, name, ByteClass::AttributeName);
        let sign = run_end(tag, name_end, ByteClass::Space);
        lemma_run_end(tag, name_end, ByteClass::Space);
        lemma_run_end(tag, sign, ByteClass::NotTagClose);
        lemma_run_end(tag, sign + 1, ByteClass::Space);
        let quote = run_end(tag, sign + 1, ByteClass::Space);
        lemma_run_end(tag, quote + 1, ByteClass::Not(tag[quote]));
    }
}

/// The range of the value of the first attribute named `wanted` from `cursor` on.
pub open spec fn attribute_from(tag: Seq<u8>, cursor: int, wanted: Seq<u8>) -> Result<
    Option<(int, int)>,
    SvgFault,
>
    decreases tag.len() - cursor,
{
    proof {
        lemma_attribute_step(tag, cursor);
    }
    match attribute_step(tag, cursor) {
        AttributeStep::End => Ok(None),
        AttributeStep::Bare { next } => attribute_from(tag, next, wanted),
        AttributeStep::Valued { name, name_end, value, value_end } => if tag.subrange(
            name,
            name_end,
        ) == wanted {
            Ok(Some((value, value_end)))
        } else {
            attribute_from(tag, value_end + 1, wanted)
        },
        AttributeStep::Fault(fault) => Err(fault),
    }
}

/// Where the attributes of a tag start: behind its name.
pub open spec fn attributes_start(tag: Seq<u8>) -> int {
    run_end(tag, 1, ByteClass::TagName)
}

/// The range of the value of the first attribute named `wanted`.
pub open spec fn spec_attribute_range(tag: Seq<u8>, wanted: Seq<u8>) -> Result<
    Option<(int, int)>,
    SvgFault,
> {
    attribute_from(tag, attributes_start(tag), wanted)
}

/// The range of the value of the first attribute of `tag` named `wanted`.
pub fn svg_attribute_range(tag: &[u8], wanted: &[u8]) -> (res: Result<
    Option<(usize, usize)>,
    SvgFault,
>)
    ensures
        match res {
            Ok(Some((from, to))) => spec_attribute_range(tag@, wanted@) == Ok::<_, SvgFault>(
                Some((from as int, to as int)),
            ) && from <= to < tag@.len(),
            Ok(None) => spec_attribute_range(tag@, wanted@) == Ok::<_, SvgFault>(
                None::<(int, int)>,
            ),
            Err(fault) => spec_attribute_range(tag@, wanted@) == Err::<Option<(int, int)>, _>(
                fault,
            ),
        },
{
    let mut cursor: usize = skip_run(tag, 1, ByteClass::TagName);
    loop
        invariant
            spec_attribute_range(tag@, wanted@) == attribute_from(tag@, cursor as int, wanted@),
        decreases tag@.len() - cursor,
    {
        proof {
            lemma_attribute_step(tag@, cursor as int);
        }
        let ghost step = attribute_step(tag@, cursor as int);
        let name: usize = skip_run(tag, cursor, ByteClass::SpaceOrSlash);
        if name >= tag.len() || tag[name] == 0x3e {
            return Ok(None);
        }
        let name_end: usize = skip_run(tag, name, ByteClass::AttributeName);
        let sign: usize = skip_run(tag, name_end, ByteClass::Space);
        if sign >= tag.len() || tag[sign] != 0x3d {
            cursor = skip_run(tag, sign, ByteClass::NotTagClose);
            continue;
        }
        let quote: usize = skip_run(tag, sign + 1, ByteClass::Space);
        if quote >= tag.len() || (tag[quote] != 0x22 && tag[quote] != 0x27) {
            return Err(SvgFault::MissingQuote);
        }
        let value_end: usize = skip_run(tag, quote + 1, ByteClass::Not(tag[quote]));
        if value_end >= tag.len() {
            return Err(SvgFault::OpenValue);
        }
        assert(step == AttributeStep::Valued {
            name: name as int,
            name_end: name_end as int,
            value: quote + 1,
            value_end: value_end as int,
        });
        if range_is(tag, name, name_end, wanted) {
            return Ok(Some((quote + 1, value_end)));
        }
        cursor = value_end + 1;
    }
}

/// `tag` with the bytes from `from` up to `to` replaced.
pub open spec fn with_range(tag: Seq<u8>, from: int, to: int, value: Seq<u8>) -> Seq<u8> {
    tag.subrange(0, from) + value + tag.subrange(to, tag.len() as int)
}

fn replace_range(tag: &[u8], from: usize, to: usize, value: &[u8]) -> (res: Vec<u8>)
    requires
        from <= to <= tag@.len(),
    ensures
        res@ == with_range(tag@, from as int, to as int, value@),
{
    let mut res: Vec<u8> = Vec::new();
    append_range(&mut res, tag, 0, from);
    append_range(&mut res, value, 0, value.len());
    append_range(&mut res, tag, to, tag.len());
    assert(res@ =~= with_range(tag@, from as int, to as int, value@));
    res
}

/// Where a new attribute is put: before the last `/>`, or else before the last `>`.
pub open spec fn insertion_point(tag: Seq<u8>) -> Option<int> {
    match last_at(tag, seq![0x2fu8, 0x3eu8], tag.len() as int) {
        Some(at) => Some(at),
        None => last_at(tag, seq![0x3eu8], tag.len() as int),
    }
}

/// A new attribute as it stands in a tag.
pub open spec fn attribute_text(name: Seq<u8>, value: Seq<u8>) -> Seq<u8> {
    seq![0x20u8] + name + seq![0x3du8, 0x22u8] + value + seq![0x22u8]
}

/// `tag` with the value of `name` replaced, or with the attribute added.
pub open spec fn spec_set_attribute(tag: Seq<u8>, name: Seq<u8>, value: Seq<u8>) -> Result<
    Seq<u8>,
    SvgFault,
> {
    match spec_attribute_range(tag, name) {
        Err(fault) => Err(fault),
        Ok(Some((from, to))) => Ok(with_range(tag, from, to, value)),
        Ok(None) => match insertion_point(tag) {
            None => Err(SvgFault::OpenTag),
            Some(at) => Ok(with_range(tag, at, at, attribute_text(name, value))),
        },
    }
}

/// Gives the attribute `name` of `tag` the value `value`.
pub fn set_svg_attribute(tag: &[u8], name: &[u8], value: &[u8]) -> (res: Result<Vec<u8>, SvgFault>)
    ensures
        match res {
            Ok(set) => spec_set_attribute(tag@, name@, value@) == Ok::<_, SvgFault>(set@),
            Err(fault) => spec_set_attribute(tag@, name@, value@) == Err::<Seq<u8>, _>(fault),
        },
{
    match svg_attribute_range(tag, name) {
        Err(fault) => Err(fault),
        Ok(Some((from, to))) => Ok(replace_range(tag, from, to, value)),
        Ok(None) => {
            let slash: [u8; 2] = [0x2f, 0x3e];
            let close: [u8; 1] = [0x3e];
            assert(slash@ =~= seq![0x2fu8, 0x3eu8]);
            assert(close@ =~= seq![0x3eu8]);
            let point = match rfind(tag, slash.as_slice()) {
                Some(at) => Some(at),
                None => rfind(tag, close.as_slice()),
            };
            match point {
                None => Err(SvgFault::OpenTag),
                Some(at) => {
                    let mut attribute: Vec<u8> = Vec::new();
                    attribute.push(0x20);
                    append_range(&mut attribute, name, 0, name.len());
                    attribute.push(0x3d);
                    attribute.push(0x22);
                    append_range(&mut attribute, value, 0, value.len());
                    attribute.push(0x22);
                    assert(attribute@ =~= attribute_text(name@, value@));
                    Ok(replace_range(tag, at, at, attribute.as_slice()))
                },
            }
        },
    }
}

/// `tag` with the value of its `xlink:href`, or else of its `href`, replaced.
pub open spec fn spec_replace_href(tag: Seq<u8>, value: Seq<u8>) -> Result<Seq<u8>, SvgFault> {
    match spec_attribute_range(tag, ascii("xlink:href"@)) {
        Err(fault) => Err(fault),
        Ok(Some((from, to))) => Ok(with_range(tag, from, to, value)),
        Ok(None) => match spec_attribute_range(tag, ascii("href"@)) {
            Err(fault) => Err(fault),
            Ok(Some((from, to))) => Ok(with_range(tag, from, to, value)),
            Ok(None) => Err(SvgFault::MissingHref),
        },
    }
}

/// Makes the image `tag` refer to `value`.
pub fn replace_svg_href(tag: &[u8], value: &[u8]) -> (res: Result<Vec<u8>, SvgFault>)
    ensures
        match res {
            Ok(set) => spec_replace_href(tag@, value@) == Ok::<_, SvgFault>(set@),
            Err(fault) => spec_replace_href(tag@, value@) == Err::<Seq<u8>, _>(fault),
        },
{
    let linked = ascii_bytes("xlink:href");
    match svg_attribute_range(tag, linked.as_slice()) {
        Err(fault) => return Err(fault),
        Ok(Some((from, to))) => return Ok(replace_range(tag, from, to, value)),
        Ok(None) => {},
    }
    let plain = ascii_bytes("href");
    match svg_attribute_range(tag, plain.as_slice()) {
        Err(fault) => Err(fault),
        Ok(Some((from, to))) => Ok(replace_range(tag, from, to, value)),
        Ok(None) => Err(SvgFault::MissingHref),
    }
}

// ---------------------------------------------------------------------------
// What is set can be read
// ---------------------------------------------------------------------------

/// Where the attributes from `cursor` on end, if every one of them has a value.
pub open spec fn attributes_end(tag: Seq<u8>, cursor: int) -> Option<int>
    decreases tag.len() - cursor,
{
    proof {
        lemma_attribute_step(tag, cursor);
    }
    match attribute_step(tag, cursor) {
        AttributeStep::End => Some(cursor),
        AttributeStep::Valued { value_end, .. } => attributes_end(tag, value_end + 1),
        _ => None,
    }
}

/// Whether every attribute of `tag` has a value and a new one is put behind them.
pub open spec fn has_room_at(tag: Seq<u8>, at: int) -> bool {
    &&& insertion_point(tag) == Some(at)
    &&& attributes_end(tag, attributes_start(tag)) matches Some(end) && end <= at <= run_end(
        tag,
        end,
        ByteClass::SpaceOrSlash,
    )
}

/// Whether `name` can stand as an attribute name.
pub open spec fn is_attribute_name(name: Seq<u8>) -> bool {
    name.len() > 0 && forall|i: int|
        0 <= i < name.len() ==> ByteClass::AttributeName.holds(#[trigger] name[i])
}

proof fn lemma_same_run(a: Seq<u8>, b: Seq<u8>, shared: int, from: int, class: ByteClass)
    requires
        0 <= from,
        shared <= a.len(),
        shared <= b.len(),
        forall|i: int| 0 <= i < shared ==> a[i] == b[i],
        run_end(a, from, class) < shared,
    ensures
        run_end(b, from, class) == run_end(a, from, class),
{
    lemma_run_end(a, from, class);
    let end = run_end(a, from, class);
    assert forall|i: int| from <= i < end implies class.holds(#[trigger] b[i]) by {
        assert(class.holds(a[i]));
    }
    lemma_run_end_is(b, from, class, end);
}

/// A step that ends before `shared` is the same in two tags that agree up to there.
proof fn lemma_same_step(a: Seq<u8>, b: Seq<u8>, shared: int, cursor: int)
    requires
        0 <= cursor,
        shared <= a.len(),
        shared <= b.len(),
        forall|i: int| 0 <= i < shared ==> a[i] == b[i],
        match attribute_step(a, cursor) {
            AttributeStep::Bare { next } => next < shared,
            AttributeStep::Valued { value_end, .. } => value_end < shared,
            _ => false,
        },
    ensures
        attribute_step(b, cursor) == attribute_step(a, cursor),
{
    let name = run_end(a, cursor, ByteClass::SpaceOrSlash);
    let name_end = run_end(a, name, ByteClass::AttributeName);
    let sign = run_end(a, name_end, ByteClass::Space);
    lemma_run_end(a, cursor, ByteClass::SpaceOrSlash);
    lemma_run_end(a, name, ByteClass::AttributeName);
    lemma_run_end(a, name_end, ByteClass::Space);
    lemma_run_end(a, sign, ByteClass::NotTagClose);
    lemma_run_end(a, sign + 1, ByteClass::Space);
    let quote = run_end(a, sign + 1, ByteClass::Space);
    lemma_run_end(a, quote + 1, ByteClass::Not(a[quote]));
    lemma_same_run(a, b, shared, cursor, ByteClass::SpaceOrSlash);
    lemma_same_run(a, b, shared, name, ByteClass::AttributeName);
    lemma_same_run(a, b, shared, name_end, ByteClass::Space);
    if a[sign] != 0x3d {
        lemma_same_run(a, b, shared, sign, ByteClass::NotTagClose);
    } else {
        lemma_same_run(a, b, shared, sign + 1, ByteClass::Space);
        lemma_same_run(a, b, shared, quote + 1, ByteClass::Not(a[quote]));
    }
}

proof fn lemma_found_range(tag: Seq<u8>, cursor: int, wanted: Seq<u8>)
    ensures
        attribute_from(tag, cursor, wanted) matches Ok(Some((from, to))) ==> cursor < from <= to
            < tag.len(),
    decreases tag.len() - cursor,
{
    lemma_attribute_step(tag, cursor);
    match attribute_step(tag, cursor) {
        AttributeStep::Bare { next } => lemma_found_range(tag, next, wanted),
        AttributeStep::Valued { value_end, .. } => lemma_found_range(tag, value_end + 1, wanted),
        _ => {},
    }
}

/// An attribute whose value is replaced is met where it was.
proof fn lemma_replaced_step(tag: Seq<u8>, cursor: int, from: int, to: int, value: Seq<u8>)
    requires
        0 <= cursor,
        attribute_step(tag, cursor) matches AttributeStep::Valued { value: f, value_end: t, .. }
            && f == from && t == to,
        !value.contains(tag[from - 1]),
    ensures
        attribute_step(tag, cursor) matches AttributeStep::Valued { name, name_end, .. }
            && attribute_step(with_range(tag, from, to, value), cursor) == (AttributeStep::Valued {
            name,
            name_end,
            value: from,
            value_end: from + value.len(),
        }),
{
    let set = with_range(tag, from, to, value);
    lemma_attribute_step(tag, cursor);
    assert forall|i: int| 0 <= i < from implies tag[i] == set[i] by {}
    let quote = tag[from - 1];
    let name = run_end(tag, cursor, ByteClass::SpaceOrSlash);
    let name_end = run_end(tag, name, ByteClass::AttributeName);
    let sign = run_end(tag, name_end, ByteClass::Space);
    lemma_run_end(tag, cursor, ByteClass::SpaceOrSlash);
    lemma_run_end(tag, name, ByteClass::AttributeName);
    lemma_run_end(tag, name_end, ByteClass::Space);
    lemma_run_end(tag, sign + 1, ByteClass::Space);
    lemma_same_run(tag, set, from, cursor, ByteClass::SpaceOrSlash);
    lemma_same_run(tag, set, from, name, ByteClass::AttributeName);
    lemma_same_run(tag, set, from, name_end, ByteClass::Space);
    lemma_same_run(tag, set, from, sign + 1, ByteClass::Space);
    assert forall|i: int| from <= i < from + value.len() implies ByteClass::Not(quote).holds(
        #[trigger] set[i],
    ) by {
        assert(set[i] == value[i - from]);
        if set[i] == quote {
            assert(value.contains(quote));
        }
    }
    assert(set[from + value.len()] == tag[to]);
    lemma_run_end_is(set, from, ByteClass::Not(quote), from + value.len());
}

proof fn lemma_replaced_value(
    tag: Seq<u8>,
    cursor: int,
    wanted: Seq<u8>,
    from: int,
    to: int,
    value: Seq<u8>,
)
    requires
        0 <= cursor,
        attribute_from(tag, cursor, wanted) == Ok::<_, SvgFault>(Some((from, to))),
        !value.contains(tag[from - 1]),
    ensures
        attribute_from(with_range(tag, from, to, value), cursor, wanted) == Ok::<_, SvgFault>(
            Some((from, from + value.len())),
        ),
    decreases tag.len() - cursor,
{
    let set = with_range(tag, from, to, value);
    lemma_found_range(tag, cursor, wanted);
    lemma_attribute_step(tag, cursor);
    assert forall|i: int| 0 <= i < from implies tag[i] == set[i] by {}
    match attribute_step(tag, cursor) {
        AttributeStep::Bare { next } => {
            lemma_found_range(tag, next, wanted);
            lemma_same_step(tag, set, from, cursor);
            lemma_replaced_value(tag, next, wanted, from, to, value);
        },
        AttributeStep::Valued { name, name_end, value: found, value_end } => {
            if tag.subrange(name, name_end) == wanted {
                lemma_replaced_step(tag, cursor, from, to, value);
                assert(set.subrange(name, name_end) =~= tag.subrange(name, name_end));
            } else {
                lemma_found_range(tag, value_end + 1, wanted);
                lemma_same_step(tag, set, from, cursor);
                assert(set.subrange(name, name_end) =~= tag.subrange(name, name_end));
                lemma_replaced_value(tag, value_end + 1, wanted, from, to, value);
            }
        },
        _ => {},
    }
}

/// A scan that finds nothing passes over what two tags share up to its end.
proof fn lemma_nothing_found_before(
    tag: Seq<u8>,
    other: Seq<u8>,
    shared: int,
    cursor: int,
    wanted: Seq<u8>,
    end: int,
)
    requires
        0 <= cursor,
        shared <= tag.len(),
        shared <= other.len(),
        forall|i: int| 0 <= i < shared ==> tag[i] == other[i],
        attribute_from(tag, cursor, wanted) == Ok::<_, SvgFault>(None::<(int, int)>),
        attributes_end(tag, cursor) == Some(end),
        end <= shared,
    ensures
        attribute_from(other, cursor, wanted) == attribute_from(other, end, wanted),
        attribute_step(tag, end) is End,
        cursor <= end,
    decreases tag.len() - cursor,
{
    lemma_attribute_step(tag, cursor);
    match attribute_step(tag, cursor) {
        AttributeStep::Valued { name, name_end, value_end, .. } => {
            lemma_nothing_found_before_bound(tag, value_end + 1, end);
            lemma_same_step(tag, other, shared, cursor);
            assert(other.subrange(name, name_end) =~= tag.subrange(name, name_end));
            lemma_nothing_found_before(tag, other, shared, value_end + 1, wanted, end);
        },
        _ => {},
    }
}

proof fn lemma_nothing_found_before_bound(tag: Seq<u8>, cursor: int, end: int)
    requires
        attributes_end(tag, cursor) == Some(end),
    ensures
        cursor <= end,
    decreases tag.len() - cursor,
{
    lemma_attribute_step(tag, cursor);
    match attribute_step(tag, cursor) {
        AttributeStep::Valued { value_end, .. } => lemma_nothing_found_before_bound(
            tag,
            value_end + 1,
            end,
        ),
        _ => {},
    }
}

/// The new attribute is met where it was put.
proof fn lemma_added_step(tag: Seq<u8>, name: Seq<u8>, value: Seq<u8>, end: int, at: int)
    requires
        0 <= end <= at <= tag.len(),
        at <= run_end(tag, end, ByteClass::SpaceOrSlash),
        is_attribute_name(name),
        !value.contains(0x22),
    ensures
        ({
            let set = with_range(tag, at, at, attribute_text(name, value));
            let from = at + name.len() + 3;
            &&& attribute_step(set, end) == (AttributeStep::Valued {
                name: at + 1,
                name_end: from - 2,
                value: from,
                value_end: from + value.len(),
            })
            &&& set.subrange(at + 1, from - 2) == name
        }),
{
    let text = attribute_text(name, value);
    let set = with_range(tag, at, at, text);
    let count = name.len() as int;
    lemma_run_end(tag, end, ByteClass::SpaceOrSlash);
    assert forall|i: int| at <= i < at + text.len() implies #[trigger] set[i] == text[i - at] by {}
    assert forall|i: int| end <= i < at + 1 implies ByteClass::SpaceOrSlash.holds(
        #[trigger] set[i],
    ) by {
        if i < at {
            assert(ByteClass::SpaceOrSlash.holds(tag[i]));
        }
    }
    assert(set[at + 1] == name[0]);
    lemma_run_end_is(set, end, ByteClass::SpaceOrSlash, at + 1);
    assert forall|i: int| at + 1 <= i < at + 1 + count implies ByteClass::AttributeName.holds(
        #[trigger] set[i],
    ) by {
        assert(set[i] == name[i - at - 1]);
    }
    assert(set[at + 1 + count] == 0x3d);
    lemma_run_end_is(set, at + 1, ByteClass::AttributeName, at + 1 + count);
    lemma_run_end_is(set, at + 1 + count, ByteClass::Space, at + 1 + count);
    assert(set[at + 2 + count] == 0x22);
    lemma_run_end_is(set, at + 2 + count, ByteClass::Space, at + 2 + count);
    let from = at + 3 + count;
    assert forall|i: int| from <= i < from + value.len() implies ByteClass::Not(0x22u8).holds(
        #[trigger] set[i],
    ) by {
        assert(set[i] == value[i - from]);
        if set[i] == 0x22 {
            assert(value.contains(0x22));
        }
    }
    assert(set[from + value.len()] == 0x22);
    lemma_run_end_is(set, from, ByteClass::Not(0x22u8), from + value.len());
    assert(set.subrange(at + 1, at + 1 + count) =~= name);
}

/// A tag with a new attribute has its attributes where it had them.
proof fn lemma_same_start(tag: Seq<u8>, name: Seq<u8>, value: Seq<u8>, at: int)
    requires
        attributes_start(tag) <= at < tag.len(),
    ensures
        attributes_start(with_range(tag, at, at, attribute_text(name, value))) == attributes_start(
            tag,
        ),
{
    let set = with_range(tag, at, at, attribute_text(name, value));
    let start = attributes_start(tag);
    lemma_run_end(tag, 1, ByteClass::TagName);
    assert forall|i: int| 0 <= i < at implies tag[i] == set[i] by {}
    if start < at {
        lemma_same_run(tag, set, at, 1, ByteClass::TagName);
    } else {
        assert(set[at] == 0x20);
        assert forall|i: int| 1 <= i < at implies ByteClass::TagName.holds(#[trigger] set[i]) by {
            assert(ByteClass::TagName.holds(tag[i]));
        }
        lemma_run_end_is(set, 1, ByteClass::TagName, at);
    }
}

/// Whether `name` can be given `value` in `tag`: the value does not hold the quote around
/// it and, where the attribute is added, the tag is regular.
pub open spec fn can_be_set(tag: Seq<u8>, name: Seq<u8>, value: Seq<u8>) -> bool {
    match spec_attribute_range(tag, name) {
        Err(_) => false,
        Ok(Some((from, _))) => !value.contains(tag[from - 1]),
        Ok(None) => {
            &&& is_attribute_name(name)
            &&& !value.contains(0x22)
            &&& exists|at: int| has_room_at(tag, at)
        },
    }
}

/// A value that was set is the value that is read.
pub proof fn law_attribute_reads_back(tag: Seq<u8>, name: Seq<u8>, value: Seq<u8>)
    requires
        can_be_set(tag, name, value),
    ensures
        match spec_set_attribute(tag, name, value) {
            Err(_) => false,
            Ok(set) => spec_attribute_range(set, name) matches Ok(Some((from, to))) && 0 <= from
                <= to <= set.len() && set.subrange(from, to) == value,
        },
{
    let start = attributes_start(tag);
    lemma_run_end(tag, 1, ByteClass::TagName);
    match spec_attribute_range(tag, name) {
        Ok(Some((from, to))) => {
            let set = with_range(tag, from, to, value);
            lemma_found_range(tag, start, name);
            lemma_replaced_value(tag, start, name, from, to, value);
            assert forall|i: int| 0 <= i < from implies tag[i] == set[i] by {}
            lemma_same_run(tag, set, from, 1, ByteClass::TagName);
            assert(set.subrange(from, from + value.len()) =~= value);
        },
        Ok(None) => {
            let at = choose|at: int| has_room_at(tag, at);
            let end = attributes_end(tag, start).unwrap();
            let text = attribute_text(name, value);
            let set = with_range(tag, at, at, text);
            lemma_run_end(tag, end, ByteClass::SpaceOrSlash);
            lemma_insertion_point(tag);
            assert forall|i: int| 0 <= i < at implies tag[i] == set[i] by {}
            lemma_nothing_found_before_bound(tag, start, end);
            lemma_nothing_found_before(tag, set, at, start, name, end);
            lemma_same_start(tag, name, value, at);
            lemma_added_step(tag, name, value, end, at);
            let from = at + name.len() + 3;
            assert(set.subrange(from, from + value.len()) =~= value);
        },
        Err(_) => {},
    }
}

/// To set an attribute twice is to set it once.
pub proof fn law_setting_twice_is_setting_once(tag: Seq<u8>, name: Seq<u8>, value: Seq<u8>)
    requires
        can_be_set(tag, name, value),
    ensures
        match spec_set_attribute(tag, name, value) {
            Err(_) => false,
            Ok(set) => spec_set_attribute(set, name, value) == Ok::<_, SvgFault>(set),
        },
{
    law_attribute_reads_back(tag, name, value);
    if let Ok(set) = spec_set_attribute(tag, name, value) {
        if let Ok(Some((from, to))) = spec_attribute_range(set, name) {
            assert(with_range(set, from, to, value) =~= set);
        }
    }
}

// ---------------------------------------------------------------------------
// What is set leaves the rest alone
// ---------------------------------------------------------------------------

/// The value of the first attribute named `wanted` from `cursor` on.
pub open spec fn value_from(tag: Seq<u8>, cursor: int, wanted: Seq<u8>) -> Result<
    Option<Seq<u8>>,
    SvgFault,
> {
    match attribute_from(tag, cursor, wanted) {
        Ok(Some((from, to))) => Ok(Some(tag.subrange(from, to))),
        Ok(None) => Ok(None),
        Err(fault) => Err(fault),
    }
}

/// The value of the attribute named `wanted`, as it stands in the tag.
pub open spec fn attribute_value(tag: Seq<u8>, wanted: Seq<u8>) -> Result<
    Option<Seq<u8>>,
    SvgFault,
> {
    value_from(tag, attributes_start(tag), wanted)
}

/// What stands in front of an attribute does not matter to it.
proof fn lemma_step_behind(front: Seq<u8>, back: Seq<u8>, cursor: int)
    requires
        0 <= cursor,
    ensures
        attribute_step(front + back, front.len() + cursor) == (match attribute_step(back, cursor) {
            AttributeStep::End => AttributeStep::End,
            AttributeStep::Bare { next } => AttributeStep::Bare { next: front.len() + next },
            AttributeStep::Valued { name, name_end, value, value_end } => AttributeStep::Valued {
                name: front.len() + name,
                name_end: front.len() + name_end,
                value: front.len() + value,
                value_end: front.len() + value_end,
            },
            AttributeStep::Fault(fault) => AttributeStep::Fault(fault),
        }),
{
    let whole = front + back;
    let shift = front.len() as int;
    let name = run_end(back, cursor, ByteClass::SpaceOrSlash);
    let name_end = run_end(back, name, ByteClass::AttributeName);
    let sign = run_end(back, name_end, ByteClass::Space);
    let quote = run_end(back, sign + 1, ByteClass::Space);
    lemma_run_end(back, cursor, ByteClass::SpaceOrSlash);
    lemma_run_end(back, name, ByteClass::AttributeName);
    lemma_run_end(back, name_end, ByteClass::Space);
    lemma_run_end(back, sign + 1, ByteClass::Space);
    lemma_run_behind(front, back, cursor, ByteClass::SpaceOrSlash);
    lemma_run_behind(front, back, name, ByteClass::AttributeName);
    lemma_run_behind(front, back, name_end, ByteClass::Space);
    lemma_run_behind(front, back, sign, ByteClass::NotTagClose);
    lemma_run_behind(front, back, sign + 1, ByteClass::Space);
    if name < back.len() {
        assert(whole[shift + name] == back[name]);
    }
    if sign < back.len() {
        assert(whole[shift + sign] == back[sign]);
    }
    if quote < back.len() {
        assert(whole[shift + quote] == back[quote]);
        lemma_run_behind(front, back, quote + 1, ByteClass::Not(back[quote]));
    }
}

/// What stands in front of the attributes does not matter to them.
proof fn lemma_value_behind(front: Seq<u8>, back: Seq<u8>, cursor: int, wanted: Seq<u8>)
    requires
        0 <= cursor,
    ensures
        value_from(front + back, front.len() + cursor, wanted) == value_from(
            back,
            cursor,
            wanted,
        ),
    decreases back.len() - cursor,
{
    let whole = front + back;
    let shift = front.len() as int;
    lemma_step_behind(front, back, cursor);
    lemma_attribute_step(back, cursor);
    match attribute_step(back, cursor) {
        AttributeStep::Bare { next } => {
            lemma_value_behind(front, back, next, wanted);
        },
        AttributeStep::Valued { name, name_end, value, value_end } => {
            assert(whole.subrange(shift + name, shift + name_end) =~= back.subrange(
                name,
                name_end,
            ));
            assert(whole.subrange(shift + value, shift + value_end) =~= back.subrange(
                value,
                value_end,
            ));
            lemma_value_behind(front, back, value_end + 1, wanted);
        },
        _ => {},
    }
}

/// The other attributes of a tag are what they are when a value is replaced.
proof fn lemma_replacing_keeps_others(
    tag: Seq<u8>,
    cursor: int,
    wanted: Seq<u8>,
    from: int,
    to: int,
    value: Seq<u8>,
    other: Seq<u8>,
)
    requires
        0 <= cursor,
        attribute_from(tag, cursor, wanted) == Ok::<_, SvgFault>(Some((from, to))),
        !value.contains(tag[from - 1]),
        other != wanted,
    ensures
        value_from(with_range(tag, from, to, value), cursor, other) == value_from(
            tag,
            cursor,
            other,
        ),
    decreases tag.len() - cursor,
{
    let set = with_range(tag, from, to, value);
    lemma_found_range(tag, cursor, wanted);
    lemma_attribute_step(tag, cursor);
    assert forall|i: int| 0 <= i < from implies tag[i] == set[i] by {}
    match attribute_step(tag, cursor) {
        AttributeStep::Bare { next } => {
            lemma_found_range(tag, next, wanted);
            lemma_same_step(tag, set, from, cursor);
            lemma_replacing_keeps_others(tag, next, wanted, from, to, value, other);
        },
        AttributeStep::Valued { name, name_end, value: found, value_end } => {
            if tag.subrange(name, name_end) == wanted {
                lemma_replaced_step(tag, cursor, from, to, value);
                assert(set.subrange(name, name_end) =~= wanted);
                let back = tag.subrange(to + 1, tag.len() as int);
                let front = tag.subrange(0, to + 1);
                let set_front = set.subrange(0, from + value.len() + 1);
                assert(front + back =~= tag);
                assert(set_front + back =~= set);
                lemma_value_behind(front, back, 0, other);
                lemma_value_behind(set_front, back, 0, other);
            } else {
                lemma_found_range(tag, value_end + 1, wanted);
                lemma_same_step(tag, set, from, cursor);
                assert(set.subrange(name, name_end) =~= tag.subrange(name, name_end));
                assert(set.subrange(found, value_end) =~= tag.subrange(found, value_end));
                lemma_replacing_keeps_others(tag, value_end + 1, wanted, from, to, value, other);
            }
        },
        _ => {},
    }
}

/// A new attribute behind all others is none of the others, and none follows it.
proof fn lemma_adding_finds_nothing_else(
    tag: Seq<u8>,
    name: Seq<u8>,
    value: Seq<u8>,
    end: int,
    at: int,
    other: Seq<u8>,
)
    requires
        0 <= end <= at < tag.len(),
        attribute_step(tag, end) is End,
        at <= run_end(tag, end, ByteClass::SpaceOrSlash),
        is_attribute_name(name),
        !value.contains(0x22),
        other != name,
    ensures
        value_from(with_range(tag, at, at, attribute_text(name, value)), end, other) == Ok::<
            _,
            SvgFault,
        >(None::<Seq<u8>>),
{
    let text = attribute_text(name, value);
    let set = with_range(tag, at, at, text);
    let behind = (at + text.len()) as int;
    let front = tag.subrange(0, at);
    let back = tag.subrange(at, tag.len() as int);
    let set_front = set.subrange(0, behind);
    assert(front + back =~= tag);
    assert(set_front + back =~= set);
    assert(front.len() == at && set_front.len() == behind);
    lemma_run_end(tag, end, ByteClass::SpaceOrSlash);
    lemma_run_end_is(
        tag,
        at,
        ByteClass::SpaceOrSlash,
        run_end(tag, end, ByteClass::SpaceOrSlash),
    );
    assert(attribute_step(tag, at) is End);
    lemma_value_behind(front, back, 0, other);
    assert(value_from(tag, at, other) == Ok::<_, SvgFault>(None::<Seq<u8>>));
    lemma_value_behind(set_front, back, 0, other);
    assert(value_from(set, behind, other) == Ok::<_, SvgFault>(None::<Seq<u8>>));
    lemma_added_step(tag, name, value, end, at);
    assert(attribute_from(set, end, other) == attribute_from(set, behind, other));
}

/// The other attributes of a tag are what they are when one is added behind them.
proof fn lemma_adding_keeps_others(
    tag: Seq<u8>,
    cursor: int,
    name: Seq<u8>,
    value: Seq<u8>,
    end: int,
    at: int,
    other: Seq<u8>,
)
    requires
        0 <= cursor,
        attributes_end(tag, cursor) == Some(end),
        end <= at < tag.len(),
        at <= run_end(tag, end, ByteClass::SpaceOrSlash),
        is_attribute_name(name),
        !value.contains(0x22),
        other != name,
    ensures
        value_from(with_range(tag, at, at, attribute_text(name, value)), cursor, other)
            == value_from(tag, cursor, other),
    decreases tag.len() - cursor,
{
    let text = attribute_text(name, value);
    let set = with_range(tag, at, at, text);
    lemma_attribute_step(tag, cursor);
    lemma_nothing_found_before_bound(tag, cursor, end);
    assert forall|i: int| 0 <= i < at implies tag[i] == set[i] by {}
    match attribute_step(tag, cursor) {
        AttributeStep::Valued { name: other_name, name_end, value: found, value_end } => {
            lemma_nothing_found_before_bound(tag, value_end + 1, end);
            lemma_same_step(tag, set, at, cursor);
            assert(set.subrange(other_name, name_end) =~= tag.subrange(other_name, name_end));
            assert(set.subrange(found, value_end) =~= tag.subrange(found, value_end));
            lemma_adding_keeps_others(tag, value_end + 1, name, value, end, at, other);
        },
        AttributeStep::End => {
            lemma_adding_finds_nothing_else(tag, name, value, end, at, other);
        },
        _ => {},
    }
}

/// Setting an attribute leaves the value of every other one as it was.
pub proof fn law_setting_keeps_other_attributes(
    tag: Seq<u8>,
    name: Seq<u8>,
    value: Seq<u8>,
    other: Seq<u8>,
)
    requires
        can_be_set(tag, name, value),
        other != name,
    ensures
        match spec_set_attribute(tag, name, value) {
            Err(_) => false,
            Ok(set) => attribute_value(set, other) == attribute_value(tag, other),
        },
{
    let start = attributes_start(tag);
    lemma_run_end(tag, 1, ByteClass::TagName);
    match spec_attribute_range(tag, name) {
        Ok(Some((from, to))) => {
            let set = with_range(tag, from, to, value);
            lemma_found_range(tag, start, name);
            assert forall|i: int| 0 <= i < from implies tag[i] == set[i] by {}
            lemma_same_run(tag, set, from, 1, ByteClass::TagName);
            lemma_replacing_keeps_others(tag, start, name, from, to, value, other);
        },
        Ok(None) => {
            let at = choose|at: int| has_room_at(tag, at);
            let end = attributes_end(tag, start).unwrap();
            lemma_insertion_point(tag);
            lemma_nothing_found_before_bound(tag, start, end);
            lemma_same_start(tag, name, value, at);
            lemma_adding_keeps_others(tag, start, name, value, end, at, other);
        },
        Err(_) => {},
    }
}

// ---------------------------------------------------------------------------
// Regular tags
// ---------------------------------------------------------------------------

/// Whether `tag` is a start tag: a name, attributes that all have values, and the closing
/// angle bracket. A slash in front of an angle bracket stands at the end only.
pub open spec fn is_regular_tag(tag: Seq<u8>) -> bool {
    &&& tag.len() > 1
    &&& tag[0] == 0x3c
    &&& tag.last() == 0x3e
    &&& attributes_end(tag, attributes_start(tag)) matches Some(end) && run_end(
        tag,
        end,
        ByteClass::SpaceOrSlash,
    ) == tag.len() - 1
    &&& forall|i: int| 0 <= i < tag.len() - 2 && #[trigger] tag[i] == 0x2f ==> tag[i + 1] != 0x3e
}

proof fn lemma_attributes_end(tag: Seq<u8>, cursor: int, end: int, wanted: Seq<u8>)
    requires
        1 <= cursor,
        attributes_end(tag, cursor) == Some(end),
        tag[cursor - 1] != 0x2f,
    ensures
        tag[end - 1] != 0x2f,
        attribute_from(tag, cursor, wanted) is Ok,
    decreases tag.len() - cursor,
{
    lemma_attribute_step(tag, cursor);
    match attribute_step(tag, cursor) {
        AttributeStep::Valued { value, value_end, .. } => {
            lemma_step_is_quoted(tag, cursor);
            lemma_attributes_end(tag, value_end + 1, end, wanted);
        },
        _ => {},
    }
}

proof fn lemma_step_is_quoted(tag: Seq<u8>, cursor: int)
    ensures
        attribute_step(tag, cursor) matches AttributeStep::Valued { value, .. } ==> tag[value - 1]
            == 0x22 || tag[value - 1] == 0x27,
{
}

/// Every attribute of a regular tag can be set, and new ones be added, to any value
/// without quotes.
pub proof fn law_regular_tags_take_attributes(tag: Seq<u8>, name: Seq<u8>, value: Seq<u8>)
    requires
        is_regular_tag(tag),
        is_attribute_name(name),
        !value.contains(0x22),
        !value.contains(0x27),
    ensures
        can_be_set(tag, name, value),
{
    let start = attributes_start(tag);
    let end = attributes_end(tag, start).unwrap();
    let last = tag.len() - 1;
    let slash = seq![0x2fu8, 0x3eu8];
    let bracket = seq![0x3eu8];
    lemma_run_end(tag, 1, ByteClass::TagName);
    lemma_attributes_end(tag, start, end, name);
    lemma_nothing_found_before_bound(tag, start, end);
    lemma_value_is_quoted(tag, start, name);
    lemma_run_end(tag, end, ByteClass::SpaceOrSlash);
    assert(tag.subrange(last, last + 1) =~= bracket);
    assert(last_at(tag, bracket, tag.len() as int) == Some(last)) by {
        assert(last_at(tag, bracket, last) == Some(last));
        assert(last_at(tag, bracket, last + 1) == last_at(tag, bracket, last));
    }
    lemma_last_at(tag, slash, tag.len() as int);
    if let Some(at) = last_at(tag, slash, tag.len() as int) {
        assert(tag.subrange(at, at + 2)[0] == 0x2f);
        assert(tag.subrange(at, at + 2)[1] == 0x3e);
        assert(tag[at] == 0x2f && tag[at + 1] == 0x3e);
        assert(at == last - 1);
        assert(has_room_at(tag, at));
    } else {
        assert(has_room_at(tag, last));
    }
}

proof fn lemma_insertion_point(tag: Seq<u8>)
    ensures
        insertion_point(tag) matches Some(at) ==> 0 <= at < tag.len(),
{
    lemma_last_at(tag, seq![0x2fu8, 0x3eu8], tag.len() as int);
    lemma_last_at(tag, seq![0x3eu8], tag.len() as int);
}

proof fn lemma_last_at(bytes: Seq<u8>, part: Seq<u8>, from: int)
    requires
        part.len() > 0,
    ensures
        last_at(bytes, part, from) matches Some(at) ==> 0 <= at <= from && at + part.len()
            <= bytes.len() && stands_at(bytes, part, at),
    decreases from + 1,
{
    if from >= 0 && !stands_at(bytes, part, from) {
        lemma_last_at(bytes, part, from - 1);
    }
}

/// The value of an attribute stands behind a quote.
pub proof fn lemma_value_is_quoted(tag: Seq<u8>, cursor: int, wanted: Seq<u8>)
    ensures
        attribute_from(tag, cursor, wanted) matches Ok(Some((from, to))) ==> tag[from - 1] == 0x22
            || tag[from - 1] == 0x27,
    decreases tag.len() - cursor,
{
    lemma_attribute_step(tag, cursor);
    match attribute_step(tag, cursor) {
        AttributeStep::Bare { next } => lemma_value_is_quoted(tag, next, wanted),
        AttributeStep::Valued { value_end, .. } => lemma_value_is_quoted(
            tag,
            value_end + 1,
            wanted,
        ),
        _ => {},
    }
}

/// Whether `value` can stand in a tag without being taken for a part of its markup.
pub open spec fn is_plain_value(value: Seq<u8>) -> bool {
    !value.contains(0x22) && !value.contains(0x27) && !value.contains(0x3e)
}

/// The attributes from `cursor` on end as far behind `cursor` whatever stands in front.
proof fn lemma_attributes_end_behind(front: Seq<u8>, back: Seq<u8>, cursor: int)
    requires
        0 <= cursor,
    ensures
        attributes_end(front + back, front.len() + cursor) == (match attributes_end(back, cursor) {
            Some(end) => Some(front.len() + end),
            None => None,
        }),
    decreases back.len() - cursor,
{
    lemma_step_behind(front, back, cursor);
    lemma_attribute_step(back, cursor);
    match attribute_step(back, cursor) {
        AttributeStep::Valued { value_end, .. } => {
            lemma_attributes_end_behind(front, back, value_end + 1);
        },
        _ => {},
    }
}

proof fn lemma_replacing_moves_the_end(
    tag: Seq<u8>,
    cursor: int,
    wanted: Seq<u8>,
    from: int,
    to: int,
    value: Seq<u8>,
    end: int,
)
    requires
        0 <= cursor,
        attribute_from(tag, cursor, wanted) == Ok::<_, SvgFault>(Some((from, to))),
        attributes_end(tag, cursor) == Some(end),
        !value.contains(tag[from - 1]),
    ensures
        attributes_end(with_range(tag, from, to, value), cursor) == Some(
            end - to + from + value.len(),
        ),
        to < end,
    decreases tag.len() - cursor,
{
    let set = with_range(tag, from, to, value);
    lemma_found_range(tag, cursor, wanted);
    lemma_attribute_step(tag, cursor);
    assert forall|i: int| 0 <= i < from implies tag[i] == set[i] by {}
    match attribute_step(tag, cursor) {
        AttributeStep::Valued { name, name_end, value: found, value_end } => {
            if tag.subrange(name, name_end) == wanted {
                lemma_replaced_step(tag, cursor, from, to, value);
                let back = tag.subrange(to + 1, tag.len() as int);
                let front = tag.subrange(0, to + 1);
                let set_front = set.subrange(0, from + value.len() + 1);
                assert(front + back =~= tag);
                assert(set_front + back =~= set);
                lemma_attributes_end_behind(front, back, 0);
                lemma_attributes_end_behind(set_front, back, 0);
                lemma_nothing_found_before_bound(tag, to + 1, end);
            } else {
                lemma_found_range(tag, value_end + 1, wanted);
                lemma_same_step(tag, set, from, cursor);
                lemma_replacing_moves_the_end(
                    tag,
                    value_end + 1,
                    wanted,
                    from,
                    to,
                    value,
                    end,
                );
            }
        },
        _ => {},
    }
}

proof fn lemma_adding_moves_the_end(
    tag: Seq<u8>,
    cursor: int,
    name: Seq<u8>,
    value: Seq<u8>,
    end: int,
    at: int,
)
    requires
        0 <= cursor,
        attributes_end(tag, cursor) == Some(end),
        end <= at < tag.len(),
        at <= run_end(tag, end, ByteClass::SpaceOrSlash),
        is_attribute_name(name),
        !value.contains(0x22),
    ensures
        attributes_end(with_range(tag, at, at, attribute_text(name, value)), cursor) == Some(
            at + name.len() + value.len() + 4,
        ),
    decreases tag.len() - cursor,
{
    let text = attribute_text(name, value);
    let set = with_range(tag, at, at, text);
    lemma_attribute_step(tag, cursor);
    lemma_nothing_found_before_bound(tag, cursor, end);
    assert forall|i: int| 0 <= i < at implies tag[i] == set[i] by {}
    match attribute_step(tag, cursor) {
        AttributeStep::Valued { value_end, .. } => {
            lemma_nothing_found_before_bound(tag, value_end + 1, end);
            lemma_same_step(tag, set, at, cursor);
            lemma_adding_moves_the_end(tag, value_end + 1, name, value, end, at);
        },
        AttributeStep::End => {
            lemma_added_step(tag, name, value, end, at);
            lemma_end_behind_added(tag, name, value, end, at);
        },
        _ => {},
    }
}

proof fn lemma_end_behind_added(tag: Seq<u8>, name: Seq<u8>, value: Seq<u8>, end: int, at: int)
    requires
        0 <= end <= at < tag.len(),
        attribute_step(tag, end) is End,
        at <= run_end(tag, end, ByteClass::SpaceOrSlash),
    ensures
        ({
            let set = with_range(tag, at, at, attribute_text(name, value));
            let behind = at + name.len() + value.len() + 4;
            &&& attribute_step(set, behind) is End
            &&& attributes_end(set, behind) == Some(behind)
            &&& run_end(set, behind, ByteClass::SpaceOrSlash) == run_end(
                tag,
                end,
                ByteClass::SpaceOrSlash,
            ) - at + behind
        }),
{
    let text = attribute_text(name, value);
    let set = with_range(tag, at, at, text);
    let behind = (at + text.len()) as int;
    let front = tag.subrange(0, at);
    let back = tag.subrange(at, tag.len() as int);
    let set_front = set.subrange(0, behind);
    assert(front + back =~= tag);
    assert(set_front + back =~= set);
    assert(front.len() == at && set_front.len() == behind);
    assert(behind == at + name.len() + value.len() + 4);
    lemma_run_end(tag, end, ByteClass::SpaceOrSlash);
    lemma_run_end_is(
        tag,
        at,
        ByteClass::SpaceOrSlash,
        run_end(tag, end, ByteClass::SpaceOrSlash),
    );
    assert(attribute_step(tag, at) is End);
    lemma_step_behind(front, back, 0);
    lemma_step_behind(set_front, back, 0);
    lemma_run_behind(front, back, 0, ByteClass::SpaceOrSlash);
    lemma_run_behind(set_front, back, 0, ByteClass::SpaceOrSlash);
}

/// Whether no slash stands in front of an angle bracket but at the end.
spec fn slashes_are_last(tag: Seq<u8>) -> bool {
    forall|i: int| 0 <= i < tag.len() - 2 && #[trigger] tag[i] == 0x2f ==> tag[i + 1] != 0x3e
}

proof fn lemma_slashes_stay_last(tag: Seq<u8>, from: int, to: int, value: Seq<u8>)
    requires
        0 <= from <= to < tag.len(),
        slashes_are_last(tag),
        !value.contains(0x3e),
        from > 0,
        tag[from - 1] != 0x2f || value.len() > 0,
        value.len() > 0 ==> value.last() != 0x2f || tag[to] != 0x3e,
        value.len() == 0 ==> tag[to] != 0x3e,
    ensures
        slashes_are_last(with_range(tag, from, to, value)),
{
    let set = with_range(tag, from, to, value);
    let shift = from + value.len() - to;
    assert forall|i: int| 0 <= i < set.len() - 2 && #[trigger] set[i] == 0x2f implies set[i + 1]
        != 0x3e by {
        if i + 1 < from {
            assert(tag[i] == set[i] && tag[i + 1] == set[i + 1]);
        } else if i + 1 < from + value.len() {
            assert(set[i + 1] == value[i + 1 - from]);
            assert(value.contains(set[i + 1]));
        } else if i + 1 == from + value.len() {
            assert(set[i + 1] == tag[to]);
            if value.len() > 0 {
                assert(set[i] == value[value.len() - 1]);
            }
        } else {
            assert(set[i] == tag[i - shift] && set[i + 1] == tag[i + 1 - shift]);
        }
    }
}

/// A regular tag stays one when an attribute is given a plain value.
pub proof fn law_setting_keeps_a_tag_regular(tag: Seq<u8>, name: Seq<u8>, value: Seq<u8>)
    requires
        is_regular_tag(tag),
        is_attribute_name(name),
        is_plain_value(value),
    ensures
        spec_set_attribute(tag, name, value) matches Ok(set) && is_regular_tag(set),
{
    law_regular_tags_take_attributes(tag, name, value);
    match spec_attribute_range(tag, name) {
        Ok(Some((from, to))) => {
            lemma_value_is_quoted(tag, attributes_start(tag), name);
            lemma_replaced_is_regular(tag, name, from, to, value);
        },
        Ok(None) => {
            let at = choose|at: int| has_room_at(tag, at);
            lemma_added_is_regular(tag, name, value, at);
        },
        Err(_) => {},
    }
}

proof fn lemma_replaced_is_regular(
    tag: Seq<u8>,
    name: Seq<u8>,
    from: int,
    to: int,
    value: Seq<u8>,
)
    requires
        is_regular_tag(tag),
        spec_attribute_range(tag, name) == Ok::<_, SvgFault>(Some((from, to))),
        tag[from - 1] == 0x22 || tag[from - 1] == 0x27,
        is_plain_value(value),
    ensures
        is_regular_tag(with_range(tag, from, to, value)),
{
    let start = attributes_start(tag);
    let end = attributes_end(tag, start).unwrap();
    let set = with_range(tag, from, to, value);
    let new_end = end - to + from + value.len();
    lemma_run_end(tag, 1, ByteClass::TagName);
    lemma_nothing_found_before_bound(tag, start, end);
    lemma_run_end(tag, end, ByteClass::SpaceOrSlash);
    lemma_found_range(tag, start, name);
    lemma_found_is_quoted(tag, start, name);
    assert forall|i: int| 0 <= i < from implies tag[i] == set[i] by {}
    lemma_same_run(tag, set, from, 1, ByteClass::TagName);
    lemma_replacing_moves_the_end(tag, start, name, from, to, value, end);
    assert(slashes_are_last(tag));
    lemma_slashes_stay_last(tag, from, to, value);
    let front = tag.subrange(0, end);
    let back = tag.subrange(end, tag.len() as int);
    let set_front = set.subrange(0, new_end);
    assert(front + back =~= tag);
    assert(set_front + back =~= set);
    lemma_run_behind(front, back, 0, ByteClass::SpaceOrSlash);
    lemma_run_behind(set_front, back, 0, ByteClass::SpaceOrSlash);
    assert(set.last() == tag.last());
    assert(slashes_are_last(set));
}

proof fn lemma_new_text_is_plain(name: Seq<u8>, value: Seq<u8>)
    requires
        is_attribute_name(name),
        is_plain_value(value),
    ensures
        !attribute_text(name, value).contains(0x3e),
        attribute_text(name, value).len() == name.len() + value.len() + 4,
        attribute_text(name, value).last() == 0x22,
{
    let text = attribute_text(name, value);
    assert forall|i: int| 0 <= i < text.len() implies #[trigger] text[i] != 0x3e by {
        if 1 <= i < 1 + name.len() {
            assert(text[i] == name[i - 1]);
            assert(ByteClass::AttributeName.holds(name[i - 1]));
        } else if name.len() + 3 <= i < name.len() + 3 + value.len() {
            assert(text[i] == value[i - name.len() - 3]);
            assert(value.contains(text[i]));
        }
    }
}

proof fn lemma_added_is_regular(tag: Seq<u8>, name: Seq<u8>, value: Seq<u8>, at: int)
    requires
        is_regular_tag(tag),
        has_room_at(tag, at),
        is_attribute_name(name),
        is_plain_value(value),
    ensures
        is_regular_tag(with_range(tag, at, at, attribute_text(name, value))),
{
    let start = attributes_start(tag);
    let end = attributes_end(tag, start).unwrap();
    let text = attribute_text(name, value);
    let set = with_range(tag, at, at, text);
    lemma_run_end(tag, 1, ByteClass::TagName);
    lemma_nothing_found_before_bound(tag, start, end);
    lemma_run_end(tag, end, ByteClass::SpaceOrSlash);
    lemma_same_start(tag, name, value, at);
    lemma_adding_moves_the_end(tag, start, name, value, end, at);
    lemma_end_is_end(tag, start, end);
    lemma_end_behind_added(tag, name, value, end, at);
    lemma_new_text_is_plain(name, value);
    assert(slashes_are_last(tag));
    lemma_slashes_stay_last(tag, at, at, text);
    assert(set.last() == tag.last());
    assert(set[0] == tag[0]);
    assert(slashes_are_last(set));
}

proof fn lemma_found_is_quoted(tag: Seq<u8>, cursor: int, wanted: Seq<u8>)
    ensures
        attribute_from(tag, cursor, wanted) matches Ok(Some((from, to))) ==> tag[to] == tag[from
            - 1],
    decreases tag.len() - cursor,
{
    lemma_attribute_step(tag, cursor);
    match attribute_step(tag, cursor) {
        AttributeStep::Bare { next } => lemma_found_is_quoted(tag, next, wanted),
        AttributeStep::Valued { value_end, .. } => lemma_found_is_quoted(
            tag,
            value_end + 1,
            wanted,
        ),
        _ => {},
    }
}

proof fn lemma_end_is_end(tag: Seq<u8>, cursor: int, end: int)
    requires
        attributes_end(tag, cursor) == Some(end),
    ensures
        attribute_step(tag, end) is End,
    decreases tag.len() - cursor,
{
    lemma_attribute_step(tag, cursor);
    match attribute_step(tag, cursor) {
        AttributeStep::Valued { value_end, .. } => lemma_end_is_end(tag, value_end + 1, end),
        _ => {},
    }
}

// ---------------------------------------------------------------------------
// Where tags end and what they refer to
// ---------------------------------------------------------------------------

/// The quote that is open at `to`, if none was at `from`.
pub open spec fn quote_at(bytes: Seq<u8>, from: int, to: int) -> Option<u8>
    decreases to - from,
{
    if to <= from {
        None
    } else {
        let byte = bytes[to - 1];
        match quote_at(bytes, from, to - 1) {
            Some(open) => if byte == open {
                None
            } else {
                Some(open)
            },
            None => if byte == 0x22 || byte == 0x27 {
                Some(byte)
            } else {
                None
            },
        }
    }
}

proof fn lemma_tag_close(bytes: Seq<u8>, from: int, at: int, quote: Option<u8>)
    requires
        0 <= from <= at <= bytes.len(),
        quote == quote_at(bytes, from, at),
        forall|i: int|
            from <= i < at ==> !(#[trigger] bytes[i] == 0x3e && quote_at(bytes, from, i) is None),
    ensures
        match tag_close(bytes, at, quote) {
            Some(close) => at <= close < bytes.len() && bytes[close] == 0x3e && quote_at(
                bytes,
                from,
                close,
            ) is None && forall|i: int|
                from <= i < close ==> !(#[trigger] bytes[i] == 0x3e && quote_at(
                    bytes,
                    from,
                    i,
                ) is None),
            None => forall|i: int|
                from <= i < bytes.len() ==> !(#[trigger] bytes[i] == 0x3e && quote_at(
                    bytes,
                    from,
                    i,
                ) is None),
        },
    decreases bytes.len() - at,
{
    if at < bytes.len() {
        let next = quote_at(bytes, from, at + 1);
        if !(bytes[at] == 0x3e && quote is None) {
            lemma_tag_close(bytes, from, at + 1, next);
        }
    }
}

/// A tag ends at the first closing angle bracket that is not between quotes, of either kind.
pub proof fn law_tags_end_outside_of_quotes(bytes: Seq<u8>, from: int)
    requires
        0 <= from <= bytes.len(),
    ensures
        match tag_close(bytes, from, None) {
            Some(close) => from <= close < bytes.len() && bytes[close] == 0x3e && quote_at(
                bytes,
                from,
                close,
            ) is None && forall|i: int|
                from <= i < close ==> !(#[trigger] bytes[i] == 0x3e && quote_at(
                    bytes,
                    from,
                    i,
                ) is None),
            None => forall|i: int|
                from <= i < bytes.len() ==> !(#[trigger] bytes[i] == 0x3e && quote_at(
                    bytes,
                    from,
                    i,
                ) is None),
        },
{
    lemma_tag_close(bytes, from, from, None);
}

/// What an image refers to is changed where it stands, in `xlink:href` if it has that and else in
/// `href`; every other attribute stays as it was. An image that refers to nothing is refused.
pub proof fn law_references_are_changed_where_they_stand(
    tag: Seq<u8>,
    value: Seq<u8>,
    other: Seq<u8>,
)
    requires
        !value.contains(0x22),
        !value.contains(0x27),
    ensures
        ({
            let linked = attribute_value(tag, ascii("xlink:href"@));
            let plain = attribute_value(tag, ascii("href"@));
            let name = if linked matches Ok(Some(_)) {
                ascii("xlink:href"@)
            } else {
                ascii("href"@)
            };
            match spec_replace_href(tag, value) {
                Ok(set) => {
                    &&& attribute_value(set, name) == Ok::<_, SvgFault>(Some(value))
                    &&& other != name ==> attribute_value(set, other) == attribute_value(
                        tag,
                        other,
                    )
                    &&& (linked matches Ok(Some(_))) || (plain matches Ok(Some(_)))
                },
                Err(fault) => linked == Err::<Option<Seq<u8>>, _>(fault) || plain == Err::<
                    Option<Seq<u8>>,
                    _,
                >(fault) || (linked == Ok::<_, SvgFault>(None::<Seq<u8>>) && plain == Ok::<
                    _,
                    SvgFault,
                >(None::<Seq<u8>>) && fault == SvgFault::MissingHref),
            }
        }),
{
    let linked = ascii("xlink:href"@);
    let plain = ascii("href"@);
    lemma_value_is_quoted(tag, attributes_start(tag), linked);
    lemma_value_is_quoted(tag, attributes_start(tag), plain);
    let name = if attribute_value(tag, linked) matches Ok(Some(_)) {
        linked
    } else {
        plain
    };
    if spec_replace_href(tag, value) is Ok {
        law_attribute_reads_back(tag, name, value);
        if other != name {
            law_setting_keeps_other_attributes(tag, name, value, other);
        }
    }
}

/// An attribute has the value that stands between its quotes, of either kind; the attributes
/// behind it are read after it.
pub proof fn law_attributes_are_read_in_order(
    element: Seq<u8>,
    name: Seq<u8>,
    quote: u8,
    value: Seq<u8>,
    rest: Seq<u8>,
    other: Seq<u8>,
)
    requires
        forall|i: int| 0 <= i < element.len() ==> ByteClass::TagName.holds(#[trigger] element[i]),
        is_attribute_name(name),
        quote == 0x22 || quote == 0x27,
        !value.contains(quote),
        other != name,
    ensures
        ({
            let tag = seq![0x3cu8] + element + seq![0x20u8] + name + seq![0x3du8, quote] + value
                + seq![quote] + rest;
            &&& attribute_value(tag, name) == Ok::<_, SvgFault>(Some(value))
            &&& attribute_value(tag, other) == value_from(rest, 0, other)
        }),
{
    let start = seq![0x3cu8] + element;
    let front = start + seq![0x20u8] + name + seq![0x3du8, quote] + value + seq![quote];
    let tag = front + rest;
    let e = start.len() as int;
    let n = name.len() as int;
    let from = e + n + 3;
    let to = from + value.len();
    assert(tag =~= seq![0x3cu8] + element + seq![0x20u8] + name + seq![0x3du8, quote] + value
        + seq![quote] + rest);
    assert(front.len() == to + 1);
    assert forall|i: int| 1 <= i < e implies ByteClass::TagName.holds(#[trigger] tag[i]) by {
        assert(tag[i] == element[i - 1]);
    }
    assert(tag[e] == 0x20);
    lemma_run_end_is(tag, 1, ByteClass::TagName, e);
    assert(tag[e + 1] == name[0]);
    assert(ByteClass::AttributeName.holds(name[0]));
    lemma_run_end_is(tag, e, ByteClass::SpaceOrSlash, e + 1);
    assert forall|i: int| e + 1 <= i < e + 1 + n implies ByteClass::AttributeName.holds(
        #[trigger] tag[i],
    ) by {
        assert(tag[i] == name[i - e - 1]);
    }
    assert(tag[e + 1 + n] == 0x3d);
    lemma_run_end_is(tag, e + 1, ByteClass::AttributeName, e + 1 + n);
    lemma_run_end_is(tag, e + 1 + n, ByteClass::Space, e + 1 + n);
    assert(tag[e + 2 + n] == quote);
    lemma_run_end_is(tag, e + 2 + n, ByteClass::Space, e + 2 + n);
    assert forall|i: int| from <= i < to implies ByteClass::Not(quote).holds(
        #[trigger] tag[i],
    ) by {
        assert(tag[i] == value[i - from]);
        if tag[i] == quote {
            assert(value.contains(quote));
        }
    }
    assert(tag[to] == quote);
    lemma_run_end_is(tag, from, ByteClass::Not(quote), to);
    assert(attribute_step(tag, e) == AttributeStep::Valued {
        name: e + 1,
        name_end: e + 1 + n,
        value: from,
        value_end: to,
    });
    assert(tag.subrange(e + 1, e + 1 + n) =~= name);
    assert(tag.subrange(from, to) =~= value);
    lemma_value_behind(front, rest, 0, other);
    assert(attribute_from(tag, e, other) == attribute_from(tag, to + 1, other));
}

} // verus!
