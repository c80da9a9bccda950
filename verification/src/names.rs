//! The names of generated objects and layers.

use vstd::prelude::*;

use crate::deployment::names_of;
use crate::text::{
    after_prefix, chars_of, copy_range, decimal, decimal_int, law_decimal_int_reads_back,
    push_decimal, push_decimal_int, read_i32, same_text, signed_number, stands_at, string_of,
    strip_prefix, text_stands_at,
};

verus! {

/// What is done with the selected objects.
#[derive(Debug, Clone, Copy, PartialEq, Eq, Structural)]
pub enum SelectionOperation {
    Outline,
    AddHoles,
    MergeHoles,
    TrimTransparent,
    /// The outline and the hole of every bitmap, in one drawing.
    OutlineAndHole,
}

impl SelectionOperation {
    pub open spec fn spec_layer_name(self) -> Seq<char> {
        match self {
            SelectionOperation::Outline => "RUST_OUTLINE"@,
            SelectionOperation::AddHoles => "RUST_HOLES"@,
            SelectionOperation::MergeHoles => "RUST_MERGED"@,
            SelectionOperation::TrimTransparent => "RUST_TRIMMED_OUTLINE"@,
            SelectionOperation::OutlineAndHole => "RUST_OUTPUT"@,
        }
    }

    /// The layer that takes what is generated.
    pub fn layer_name(self) -> (res: &'static str)
        ensures
            res@ == self.spec_layer_name(),
    {
        match self {
            SelectionOperation::Outline => "RUST_OUTLINE",
            SelectionOperation::AddHoles => "RUST_HOLES",
            SelectionOperation::MergeHoles => "RUST_MERGED",
            SelectionOperation::TrimTransparent => "RUST_TRIMMED_OUTLINE",
            SelectionOperation::OutlineAndHole => "RUST_OUTPUT",
        }
    }

    pub open spec fn spec_progress_prefix(self) -> Seq<char> {
        match self {
            SelectionOperation::Outline => "巡边"@,
            SelectionOperation::AddHoles => "加孔"@,
            SelectionOperation::MergeHoles => "合并孔位"@,
            SelectionOperation::TrimTransparent => "去透明边并缩放"@,
            SelectionOperation::OutlineAndHole => "巡边与孔位"@,
        }
    }

    /// What the operation is called.
    pub fn progress_prefix(self) -> (res: &'static str)
        ensures
            res@ == self.spec_progress_prefix(),
    {
        match self {
            SelectionOperation::Outline => "巡边",
            SelectionOperation::AddHoles => "加孔",
            SelectionOperation::MergeHoles => "合并孔位",
            SelectionOperation::TrimTransparent => "去透明边并缩放",
            SelectionOperation::OutlineAndHole => "巡边与孔位",
        }
    }

    /// What the names of generated objects start with. An outline with a merged keyhole
    /// has the same name, whatever it was merged from.
    pub open spec fn spec_name_prefix(self) -> Seq<char> {
        match self {
            SelectionOperation::Outline => "CDR_RUST_OUTLINE"@,
            SelectionOperation::AddHoles => "CDR_RUST_HOLE"@,
            SelectionOperation::MergeHoles
            | SelectionOperation::OutlineAndHole => "CDR_RUST_MERGED"@,
            SelectionOperation::TrimTransparent => "CDR_RUST_TRIMMED_OUTLINE"@,
        }
    }

    /// Whether the operation places holes.
    pub open spec fn spec_places_holes(self) -> bool {
        self == SelectionOperation::AddHoles || self == SelectionOperation::OutlineAndHole
    }

    /// Whether the operation places holes.
    pub fn places_holes(self) -> (res: bool)
        ensures
            res == self.spec_places_holes(),
    {
        self == SelectionOperation::AddHoles || self == SelectionOperation::OutlineAndHole
    }

    fn name_prefix(self) -> (res: &'static str)
        ensures
            res@ == self.spec_name_prefix(),
    {
        match self {
            SelectionOperation::Outline => "CDR_RUST_OUTLINE",
            SelectionOperation::AddHoles => "CDR_RUST_HOLE",
            SelectionOperation::MergeHoles
            | SelectionOperation::OutlineAndHole => "CDR_RUST_MERGED",
            SelectionOperation::TrimTransparent => "CDR_RUST_TRIMMED_OUTLINE",
        }
    }
}

// ---------------------------------------------------------------------------
// Generated objects
// ---------------------------------------------------------------------------

/// The name of what an operation generates for the object with that number.
pub open spec fn shape_name(operation: SelectionOperation, static_id: int) -> Seq<char> {
    operation.spec_name_prefix() + seq!['_'] + decimal_int(static_id)
}

/// The name of what an operation generates for the object with that number.
pub fn generated_shape_name(operation: SelectionOperation, static_id: i32) -> (res: String)
    ensures
        res@ == shape_name(operation, static_id as int),
{
    let mut res = operation.name_prefix().to_owned();
    res.push('_');
    push_decimal_int(&mut res, static_id);
    assert(res@ =~= shape_name(operation, static_id as int));
    res
}

/// The number behind a prefix.
pub open spec fn number_behind(name: Seq<char>, prefix: Seq<char>) -> Option<int> {
    match after_prefix(name, prefix) {
        Some(rest) => signed_number(rest),
        None => None,
    }
}

/// The number of the object that an outline was generated for.
pub open spec fn outline_id(name: Seq<char>) -> Option<int> {
    match number_behind(name, "CDR_RUST_OUTLINE_"@) {
        Some(id) => Some(id),
        None => number_behind(name, "CDR_RUST_TRIMMED_OUTLINE_"@),
    }
}

fn read_number_behind(name: &[char], prefix: &str) -> (res: Option<i32>)
    ensures
        match res {
            Some(id) => number_behind(name@, prefix@) == Some(id as int),
            None => number_behind(name@, prefix@) is None,
        },
{
    match strip_prefix(name, prefix) {
        Some(rest) => read_i32(rest.as_slice()),
        None => None,
    }
}

/// The number of the object that an outline was generated for.
pub fn parse_generated_outline_id(name: &str) -> (res: Option<i32>)
    ensures
        match res {
            Some(id) => outline_id(name@) == Some(id as int),
            None => outline_id(name@) is None,
        },
{
    let chars = chars_of(name);
    match read_number_behind(chars.as_slice(), "CDR_RUST_OUTLINE_") {
        Some(id) => Some(id),
        None => read_number_behind(chars.as_slice(), "CDR_RUST_TRIMMED_OUTLINE_"),
    }
}

/// Whether a generated object is a keyhole.
pub open spec fn names_a_hole(name: Seq<char>) -> bool {
    stands_at(name, "CDR_RUST_HOLE_"@, 0)
}

/// Whether a generated object is an outline with merged keyholes.
pub open spec fn names_a_merged_outline(name: Seq<char>) -> bool {
    stands_at(name, "CDR_RUST_MERGED_"@, 0)
}

fn starts_with(name: &str, prefix: &str) -> (res: bool)
    ensures
        res == stands_at(name@, prefix@, 0),
{
    text_stands_at(chars_of(name).as_slice(), chars_of(prefix).as_slice(), 0)
}

/// Whether a generated object is a keyhole.
pub fn is_hole_name(name: &str) -> (res: bool)
    ensures
        res == names_a_hole(name@),
{
    starts_with(name, "CDR_RUST_HOLE_")
}

/// Whether a part of a group is an outline that takes part in a merge.
pub open spec fn takes_part(shape_type: i32, name: Seq<char>) -> bool {
    shape_type == CURVE_SHAPE && (outline_id(name) is Some || names_a_merged_outline(name))
}

/// Whether a part of a group is an outline that takes part in a merge.
pub fn is_merge_part(shape_type: i32, name: &str) -> (res: bool)
    ensures
        res == (shape_type == CURVE_SHAPE && (outline_id(name@) is Some || names_a_merged_outline(
            name@,
        ))),
        res == takes_part(shape_type, name@),
{
    shape_type == CURVE_SHAPE && (parse_generated_outline_id(name).is_some() || starts_with(
        name,
        "CDR_RUST_MERGED_",
    ))
}

/// The type of a curve.
pub const CURVE_SHAPE: i32 = 3;

/// The type of a group.
pub const GROUP_SHAPE: i32 = 7;

/// What a selected object contributes to a merge.
#[derive(Debug, Clone, Copy, PartialEq, Eq, Structural)]
pub enum MergeCandidate {
    /// Nothing.
    Ignore,
    /// Itself.
    Curve,
    /// Those of its parts that are outlines.
    Parts,
}

/// What a selected object contributes to a merge.
pub open spec fn merge_candidate(shape_type: i32, name: Seq<char>) -> MergeCandidate {
    if shape_type == CURVE_SHAPE {
        MergeCandidate::Curve
    } else if shape_type == GROUP_SHAPE && outline_id(name) is Some {
        MergeCandidate::Parts
    } else {
        MergeCandidate::Ignore
    }
}

/// What a selected object contributes to a merge: a curve itself, a group that was
/// generated for an outline its parts.
pub fn classify_merge_candidate(shape_type: i32, name: &str) -> (res: MergeCandidate)
    ensures
        res == (if shape_type == CURVE_SHAPE {
            MergeCandidate::Curve
        } else if shape_type == GROUP_SHAPE && outline_id(name@) is Some {
            MergeCandidate::Parts
        } else {
            MergeCandidate::Ignore
        }),
        res == merge_candidate(shape_type, name@),
{
    if shape_type == CURVE_SHAPE {
        MergeCandidate::Curve
    } else if shape_type == GROUP_SHAPE && parse_generated_outline_id(name).is_some() {
        MergeCandidate::Parts
    } else {
        MergeCandidate::Ignore
    }
}

/// Where `c` last stands before `end`.
pub open spec fn last_of(s: Seq<char>, c: char, end: int) -> Option<int>
    decreases end,
{
    if end <= 0 {
        None
    } else if s[end - 1] == c {
        Some(end - 1)
    } else {
        last_of(s, c, end - 1)
    }
}

/// Whether an object of that name may be written: a generated one, or the one of older
/// tests.
pub open spec fn is_supported_name(name: Seq<char>) -> bool {
    name == "h_xbxb"@ || match last_of(name, '_', name.len() as int) {
        Some(at) => {
            &&& exists|operation: SelectionOperation|
                name.take(at) == #[trigger] operation.spec_name_prefix()
            &&& signed_number(name.skip(at + 1)) is Some
        },
        None => false,
    }
}

fn find_last(s: &[char], c: char) -> (res: Option<usize>)
    ensures
        match res {
            Some(at) => last_of(s@, c, s@.len() as int) == Some(at as int) && at < s@.len(),
            None => last_of(s@, c, s@.len() as int) is None,
        },
{
    let mut end: usize = s.len();
    while end > 0
        invariant
            end <= s@.len(),
            last_of(s@, c, s@.len() as int) == last_of(s@, c, end as int),
        decreases end,
    {
        if s[end - 1] == c {
            return Some(end - 1);
        }
        end = end - 1;
    }
    None
}

/// Whether an object of that name may be written.
pub fn is_supported_shape_name(name: &str) -> (res: bool)
    ensures
        res == is_supported_name(name@),
{
    if same_text(name, "h_xbxb") {
        return true;
    }
    let chars = chars_of(name);
    let at: usize = match find_last(chars.as_slice(), '_') {
        Some(at) => at,
        None => return false,
    };
    let front = copy_range(chars.as_slice(), 0, at);
    assert(front@ =~= name@.take(at as int));
    let prefix = string_of(front.as_slice());
    let outline = same_text(prefix.as_str(), SelectionOperation::Outline.name_prefix());
    let hole = same_text(prefix.as_str(), SelectionOperation::AddHoles.name_prefix());
    let merged = same_text(prefix.as_str(), SelectionOperation::MergeHoles.name_prefix());
    let trimmed = same_text(prefix.as_str(), SelectionOperation::TrimTransparent.name_prefix());
    if !outline && !hole && !merged && !trimmed {
        assert forall|operation: SelectionOperation|
            name@.take(at as int) != #[trigger] operation.spec_name_prefix() by {
            match operation {
                SelectionOperation::Outline => {},
                SelectionOperation::AddHoles => {},
                SelectionOperation::MergeHoles => {},
                SelectionOperation::TrimTransparent => {},
                SelectionOperation::OutlineAndHole => {},
            }
        }
        return false;
    }
    proof {
        let ghost_operation = if outline {
            SelectionOperation::Outline
        } else if hole {
            SelectionOperation::AddHoles
        } else if merged {
            SelectionOperation::MergeHoles
        } else {
            SelectionOperation::TrimTransparent
        };
        assert(name@.take(at as int) == ghost_operation.spec_name_prefix());
    }
    let len: usize = chars.len();
    let rest = copy_range(chars.as_slice(), at + 1, len);
    assert(rest@ =~= name@.skip(at + 1));
    read_i32(rest.as_slice()).is_some()
}

proof fn lemma_last_of(s: Seq<char>, c: char, at: int, end: int)
    requires
        0 <= at < end <= s.len(),
        s[at] == c,
        forall|i: int| at < i < end ==> s[i] != c,
    ensures
        last_of(s, c, end) == Some(at),
    decreases end,
{
    if at < end - 1 {
        lemma_last_of(s, c, at, end - 1);
    }
}

proof fn lemma_decimal_has_no_underscore(n: nat)
    ensures
        forall|i: int| 0 <= i < decimal(n).len() ==> #[trigger] decimal(n)[i] != '_',
    decreases n,
{
    if n >= 10 {
        lemma_decimal_has_no_underscore(n / 10);
        let shorter = decimal(n / 10);
        assert forall|i: int| 0 <= i < decimal(n).len() implies #[trigger] decimal(n)[i]
            != '_' by {
            if i < shorter.len() {
                assert(decimal(n)[i] == shorter[i]);
            }
        }
    }
}

/// Every generated name may be written.
pub proof fn law_generated_names_are_supported(operation: SelectionOperation, static_id: int)
    requires
        i32::MIN <= static_id <= i32::MAX,
    ensures
        is_supported_name(shape_name(operation, static_id)),
{
    let name = shape_name(operation, static_id);
    let prefix = operation.spec_name_prefix();
    let number = decimal_int(static_id);
    let at = prefix.len() as int;
    lemma_decimal_has_no_underscore(
        if static_id < 0 {
            (-static_id) as nat
        } else {
            static_id as nat
        },
    );
    assert forall|i: int| at < i < name.len() implies name[i] != '_' by {
        assert(name[i] == number[i - at - 1]);
        if static_id < 0 && i > at + 1 {
            assert(number[i - at - 1] == decimal((-static_id) as nat)[i - at - 2]);
        }
    }
    lemma_last_of(name, '_', at, name.len() as int);
    assert(name.take(at) =~= prefix);
    assert(name.skip(at + 1) =~= number);
    law_decimal_int_reads_back(static_id);
}

proof fn lemma_number_behind(name: Seq<char>, prefix: Seq<char>, static_id: int)
    requires
        name == prefix + decimal_int(static_id),
        i32::MIN <= static_id <= i32::MAX,
    ensures
        number_behind(name, prefix) == Some(static_id),
{
    assert(name.subrange(0, prefix.len() as int) =~= prefix);
    assert(name.skip(prefix.len() as int) =~= decimal_int(static_id));
    law_decimal_int_reads_back(static_id);
}

/// The name of an outline gives the number of its object back; the names of other
/// generated objects give none.
pub proof fn law_outline_names_resolve(operation: SelectionOperation, static_id: int)
    requires
        i32::MIN <= static_id <= i32::MAX,
    ensures
        outline_id(shape_name(operation, static_id)) == (match operation {
            SelectionOperation::Outline | SelectionOperation::TrimTransparent => Some(static_id),
            _ => None,
        }),
{
    let name = shape_name(operation, static_id);
    let number = decimal_int(static_id);
    reveal_strlit("CDR_RUST_OUTLINE");
    reveal_strlit("CDR_RUST_OUTLINE_");
    reveal_strlit("CDR_RUST_TRIMMED_OUTLINE");
    reveal_strlit("CDR_RUST_TRIMMED_OUTLINE_");
    reveal_strlit("CDR_RUST_HOLE");
    reveal_strlit("CDR_RUST_MERGED");
    let outline = "CDR_RUST_OUTLINE_"@;
    let trimmed = "CDR_RUST_TRIMMED_OUTLINE_"@;
    match operation {
        SelectionOperation::Outline => {
            assert(operation.spec_name_prefix() + seq!['_'] =~= outline);
            lemma_number_behind(name, outline, static_id);
        },
        SelectionOperation::TrimTransparent => {
            assert(operation.spec_name_prefix() + seq!['_'] =~= trimmed);
            assert(name[9] == 'T');
            assert(outline[9] == 'O');
            assert(name.subrange(0, outline.len() as int)[9] == 'T');
            assert(after_prefix(name, outline) is None);
            lemma_number_behind(name, trimmed, static_id);
        },
        SelectionOperation::AddHoles => {
            assert(name[9] == 'H');
            if stands_at(name, outline, 0) {
                assert(name.subrange(0, outline.len() as int)[9] == outline[9]);
            }
            if stands_at(name, trimmed, 0) {
                assert(name.subrange(0, trimmed.len() as int)[9] == trimmed[9]);
            }
        },
        SelectionOperation::MergeHoles | SelectionOperation::OutlineAndHole => {
            assert(name[9] == 'M');
            if stands_at(name, outline, 0) {
                assert(name.subrange(0, outline.len() as int)[9] == outline[9]);
            }
            if stands_at(name, trimmed, 0) {
                assert(name.subrange(0, trimmed.len() as int)[9] == trimmed[9]);
            }
        },
    }
}

// ---------------------------------------------------------------------------
// What an operation replaces
// ---------------------------------------------------------------------------

/// The operations whose results an operation replaces.
pub open spec fn replaced_operations(operation: SelectionOperation) -> Seq<SelectionOperation> {
    match operation {
        SelectionOperation::Outline => seq![
            SelectionOperation::Outline,
            SelectionOperation::MergeHoles,
        ],
        SelectionOperation::AddHoles => seq![SelectionOperation::AddHoles],
        SelectionOperation::MergeHoles | SelectionOperation::OutlineAndHole => seq![
            SelectionOperation::Outline,
            SelectionOperation::AddHoles,
            SelectionOperation::MergeHoles,
        ],
        SelectionOperation::TrimTransparent => seq![
            SelectionOperation::Outline,
            SelectionOperation::AddHoles,
            SelectionOperation::MergeHoles,
            SelectionOperation::TrimTransparent,
        ],
    }
}

/// Whether an object of that name is replaced by what an operation generates for the
/// object with that number.
pub open spec fn is_replaced(operation: SelectionOperation, static_id: int, name: Seq<char>) -> bool {
    exists|k: int|
        0 <= k < replaced_operations(operation).len() && name == shape_name(
            #[trigger] replaced_operations(operation)[k],
            static_id,
        )
}

/// The names of the objects that are replaced by what an operation generates for the
/// object with that number.
pub fn replaced_names(operation: SelectionOperation, static_id: i32) -> (res: Vec<String>)
    ensures
        names_of(res@) == replaced_operations(operation).map_values(
            |kind: SelectionOperation| shape_name(kind, static_id as int),
        ),
        forall|name: Seq<char>| #[trigger]
            names_of(res@).contains(name) <==> is_replaced(operation, static_id as int, name),
{
    let mut res: Vec<String> = Vec::new();
    match operation {
        SelectionOperation::Outline => {
            res.push(generated_shape_name(SelectionOperation::Outline, static_id));
            res.push(generated_shape_name(SelectionOperation::MergeHoles, static_id));
        },
        SelectionOperation::AddHoles => {
            res.push(generated_shape_name(SelectionOperation::AddHoles, static_id));
        },
        SelectionOperation::MergeHoles | SelectionOperation::OutlineAndHole => {
            res.push(generated_shape_name(SelectionOperation::Outline, static_id));
            res.push(generated_shape_name(SelectionOperation::AddHoles, static_id));
            res.push(generated_shape_name(SelectionOperation::MergeHoles, static_id));
        },
        SelectionOperation::TrimTransparent => {
            res.push(generated_shape_name(SelectionOperation::Outline, static_id));
            res.push(generated_shape_name(SelectionOperation::AddHoles, static_id));
            res.push(generated_shape_name(SelectionOperation::MergeHoles, static_id));
            res.push(generated_shape_name(SelectionOperation::TrimTransparent, static_id));
        },
    }
    let ghost kinds = replaced_operations(operation);
    let ghost wanted = kinds.map_values(
        |kind: SelectionOperation| shape_name(kind, static_id as int),
    );
    assert(names_of(res@) =~= wanted);
    assert forall|name: Seq<char>| #[trigger]
        names_of(res@).contains(name) <==> is_replaced(operation, static_id as int, name) by {
        if wanted.contains(name) {
            let k = choose|k: int| 0 <= k < wanted.len() && wanted[k] == name;
            assert(name == shape_name(kinds[k], static_id as int));
        }
        if is_replaced(operation, static_id as int, name) {
            let k = choose|k: int|
                0 <= k < kinds.len() && name == shape_name(#[trigger] kinds[k], static_id as int);
            assert(wanted[k] == name);
        }
    }
    res
}

/// Running an operation again replaces what it generated before.
pub proof fn law_an_operation_replaces_its_own_results(
    operation: SelectionOperation,
    static_id: int,
)
    ensures
        is_replaced(operation, static_id, shape_name(operation, static_id)),
{
    let kinds = replaced_operations(operation);
    match operation {
        SelectionOperation::Outline => {
            assert(kinds[0] == operation);
        },
        SelectionOperation::AddHoles => {
            assert(kinds[0] == operation);
        },
        SelectionOperation::MergeHoles => {
            assert(kinds[2] == operation);
        },
        SelectionOperation::TrimTransparent => {
            assert(kinds[3] == operation);
        },
        SelectionOperation::OutlineAndHole => {
            assert(kinds[2] == SelectionOperation::MergeHoles);
        },
    }
}

// ---------------------------------------------------------------------------
// Layers
// ---------------------------------------------------------------------------

/// The name of a layer, or the name with a number behind it.
pub open spec fn layer_candidate(base: Seq<char>, number: int) -> Seq<char> {
    if number <= 1 {
        base
    } else {
        base + " "@ + decimal(number as nat)
    }
}

/// The largest number that a layer gets.
pub const LAST_LAYER: u64 = 10_000;

/// The first candidate from `number` on that is not among `names`.
pub open spec fn free_layer(names: Seq<Seq<char>>, base: Seq<char>, number: int) -> Option<Seq<char>>
    decreases LAST_LAYER + 1 - number,
{
    if number > LAST_LAYER {
        None
    } else if names.contains(layer_candidate(base, number)) {
        free_layer(names, base, number + 1)
    } else {
        Some(layer_candidate(base, number))
    }
}

/// A name for a new layer that no layer has.
pub fn unique_layer_name(names: &Vec<String>, base: &str) -> (res: Option<String>)
    ensures
        match res {
            Some(name) => free_layer(names_of(names@), base@, 1) == Some(name@)
                && !names_of(names@).contains(name@),
            None => free_layer(names_of(names@), base@, 1) is None,
        },
{
    let mut number: u64 = 1;
    while number <= LAST_LAYER
        invariant
            1 <= number <= LAST_LAYER + 1,
            free_layer(names_of(names@), base@, 1) == free_layer(
                names_of(names@),
                base@,
                number as int,
            ),
        decreases LAST_LAYER + 1 - number,
    {
        let mut candidate = base.to_owned();
        if number > 1 {
            candidate.push_str(" ");
            push_decimal(&mut candidate, number);
        }
        assert(candidate@ == layer_candidate(base@, number as int));
        if !has_name(names, candidate.as_str()) {
            return Some(candidate);
        }
        number = number + 1;
    }
    None
}

fn has_name(names: &Vec<String>, name: &str) -> (res: bool)
    ensures
        res == names_of(names@).contains(name@),
{
    let ghost all = names_of(names@);
    for i in 0..names.len()
        invariant
            all == names_of(names@),
            forall|k: int| 0 <= k < i ==> all[k] != name@,
    {
        if same_text(names[i].as_str(), name) {
            assert(all[i as int] == name@);
            return true;
        }
    }
    false
}

/// How many of the first `end` names are `name`.
pub open spec fn occurrences(names: Seq<Seq<char>>, name: Seq<char>, end: int) -> nat
    decreases end,
{
    if end <= 0 {
        0
    } else {
        occurrences(names, name, end - 1) + if names[end - 1] == name {
            1nat
        } else {
            0nat
        }
    }
}

/// Why a layer cannot be found.
#[derive(Debug, Clone, Copy, PartialEq, Eq, Structural)]
pub enum LayerError {
    Missing,
    Ambiguous,
}

impl LayerError {
    /// The text shown for the error, about the layer of that name.
    pub open spec fn spec_message(self, name: Seq<char>) -> Seq<char> {
        match self {
            LayerError::Missing => "未找到图层 "@ + name,
            LayerError::Ambiguous => "存在多个名为 "@ + name + " 的图层"@,
        }
    }

    /// The text shown for the error, about the layer of that name.
    pub fn message(self, name: &str) -> (res: String)
        ensures
            res@ == self.spec_message(name@),
    {
        match self {
            LayerError::Missing => {
                let mut res = "未找到图层 ".to_owned();
                res.push_str(name);
                res
            },
            LayerError::Ambiguous => {
                let mut res = "存在多个名为 ".to_owned();
                res.push_str(name);
                res.push_str(" 的图层");
                res
            },
        }
    }
}

/// The index of the only layer of that name.
pub fn find_unique_layer(names: &Vec<String>, name: &str) -> (res: Result<usize, LayerError>)
    ensures
        match res {
            Ok(i) => {
                &&& i < names@.len()
                &&& names_of(names@)[i as int] == name@
                &&& occurrences(names_of(names@), name@, names@.len() as int) == 1
            },
            Err(LayerError::Missing) => !names_of(names@).contains(name@),
            Err(LayerError::Ambiguous) => occurrences(
                names_of(names@),
                name@,
                names@.len() as int,
            ) >= 2,
        },
{
    let ghost all = names_of(names@);
    let mut found: Option<usize> = None;
    for i in 0..names.len()
        invariant
            all == names_of(names@),
            match found {
                None => occurrences(all, name@, i as int) == 0 && forall|k: int|
                    0 <= k < i ==> all[k] != name@,
                Some(at) => at < i && all[at as int] == name@ && occurrences(all, name@, i as int)
                    == 1,
            },
    {
        if same_text(names[i].as_str(), name) {
            assert(all[i as int] == name@);
            if found.is_some() {
                proof {
                    lemma_occurrences_grow(all, name@, i + 1, all.len() as int);
                }
                return Err(LayerError::Ambiguous);
            }
            found = Some(i);
        } else {
            assert(all[i as int] != name@);
        }
    }
    match found {
        Some(at) => Ok(at),
        None => Err(LayerError::Missing),
    }
}

proof fn lemma_occurrences_grow(names: Seq<Seq<char>>, name: Seq<char>, from: int, to: int)
    requires
        from <= to,
    ensures
        occurrences(names, name, from) <= occurrences(names, name, to),
    decreases to - from,
{
    if from < to {
        lemma_occurrences_grow(names, name, from, to - 1);
    }
}

/// The page of a report that names none.
pub fn default_page_index() -> (res: i32)
    ensures
        res == 1,
{
    1
}

// ---------------------------------------------------------------------------
// What is replaced and what stays
// ---------------------------------------------------------------------------

proof fn lemma_prefixes()
    ensures
        forall|id: int|
            #![trigger decimal_int(id)]
            {
                &&& shape_name(SelectionOperation::Outline, id) == "CDR_RUST_OUTLINE_"@
                    + decimal_int(id)
                &&& shape_name(SelectionOperation::AddHoles, id) == "CDR_RUST_HOLE_"@
                    + decimal_int(id)
                &&& shape_name(SelectionOperation::MergeHoles, id) == "CDR_RUST_MERGED_"@
                    + decimal_int(id)
                &&& shape_name(SelectionOperation::OutlineAndHole, id) == "CDR_RUST_MERGED_"@
                    + decimal_int(id)
                &&& shape_name(SelectionOperation::TrimTransparent, id)
                    == "CDR_RUST_TRIMMED_OUTLINE_"@ + decimal_int(id)
            },
        "CDR_RUST_OUTLINE_"@.len() > 9 && "CDR_RUST_OUTLINE_"@[9] == 'O',
        "CDR_RUST_HOLE_"@.len() > 9 && "CDR_RUST_HOLE_"@[9] == 'H',
        "CDR_RUST_MERGED_"@.len() > 9 && "CDR_RUST_MERGED_"@[9] == 'M',
        "CDR_RUST_TRIMMED_OUTLINE_"@.len() > 9 && "CDR_RUST_TRIMMED_OUTLINE_"@[9] == 'T',
{
    reveal_strlit("CDR_RUST_OUTLINE");
    reveal_strlit("CDR_RUST_OUTLINE_");
    reveal_strlit("CDR_RUST_HOLE");
    reveal_strlit("CDR_RUST_HOLE_");
    reveal_strlit("CDR_RUST_MERGED");
    reveal_strlit("CDR_RUST_MERGED_");
    reveal_strlit("CDR_RUST_TRIMMED_OUTLINE");
    reveal_strlit("CDR_RUST_TRIMMED_OUTLINE_");
    assert("CDR_RUST_OUTLINE"@ + seq!['_'] =~= "CDR_RUST_OUTLINE_"@);
    assert("CDR_RUST_HOLE"@ + seq!['_'] =~= "CDR_RUST_HOLE_"@);
    assert("CDR_RUST_MERGED"@ + seq!['_'] =~= "CDR_RUST_MERGED_"@);
    assert("CDR_RUST_TRIMMED_OUTLINE"@ + seq!['_'] =~= "CDR_RUST_TRIMMED_OUTLINE_"@);
}

/// Adding holes replaces the keyhole of the bitmap and nothing else: its outline, its merged
/// outline and its trimmed outline stay, so that the new keyhole can be merged with them.
pub proof fn law_adding_holes_replaces_holes_only(static_id: int, name: Seq<char>)
    ensures
        is_replaced(SelectionOperation::AddHoles, static_id, name) <==> name == "CDR_RUST_HOLE_"@
            + decimal_int(static_id),
        forall|other: int|
            #![trigger decimal_int(other)]
            {
                &&& !is_replaced(
                    SelectionOperation::AddHoles,
                    static_id,
                    "CDR_RUST_OUTLINE_"@ + decimal_int(other),
                )
                &&& !is_replaced(
                    SelectionOperation::AddHoles,
                    static_id,
                    "CDR_RUST_MERGED_"@ + decimal_int(other),
                )
                &&& !is_replaced(
                    SelectionOperation::AddHoles,
                    static_id,
                    "CDR_RUST_TRIMMED_OUTLINE_"@ + decimal_int(other),
                )
            },
{
    lemma_prefixes();
    let number = decimal_int(static_id);
    let hole = "CDR_RUST_HOLE_"@ + number;
    assert(hole == shape_name(SelectionOperation::AddHoles, static_id));
    let kinds = replaced_operations(SelectionOperation::AddHoles);
    assert forall|any: Seq<char>|
        is_replaced(SelectionOperation::AddHoles, static_id, any) <==> #[trigger] same_name(
            any,
            hole,
        ) by {
        if same_name(any, hole) {
            assert(any == shape_name(kinds[0], static_id));
        }
    }
    assert(same_name(name, hole) <==> name == hole);
    assert forall|other: int|
        #![trigger decimal_int(other)]
        {
            &&& !is_replaced(
                SelectionOperation::AddHoles,
                static_id,
                "CDR_RUST_OUTLINE_"@ + decimal_int(other),
            )
            &&& !is_replaced(
                SelectionOperation::AddHoles,
                static_id,
                "CDR_RUST_MERGED_"@ + decimal_int(other),
            )
            &&& !is_replaced(
                SelectionOperation::AddHoles,
                static_id,
                "CDR_RUST_TRIMMED_OUTLINE_"@ + decimal_int(other),
            )
        } by {
        assert(hole[9] == 'H');
        assert(("CDR_RUST_OUTLINE_"@ + decimal_int(other))[9] == 'O');
        assert(("CDR_RUST_MERGED_"@ + decimal_int(other))[9] == 'M');
        assert(("CDR_RUST_TRIMMED_OUTLINE_"@ + decimal_int(other))[9] == 'T');
        assert(!same_name("CDR_RUST_OUTLINE_"@ + decimal_int(other), hole));
        assert(!same_name("CDR_RUST_MERGED_"@ + decimal_int(other), hole));
        assert(!same_name("CDR_RUST_TRIMMED_OUTLINE_"@ + decimal_int(other), hole));
    }
}

spec fn same_name(a: Seq<char>, b: Seq<char>) -> bool {
    a == b
}

/// An outline replaces the outline and the merged outline of its bitmap. A merged outline
/// replaces the keyhole too. A trimmed bitmap replaces all of these, and its trimmed outline.
pub proof fn law_outlines_replace_what_they_hold(static_id: int, name: Seq<char>)
    ensures
        is_replaced(SelectionOperation::Outline, static_id, name) <==> name == "CDR_RUST_OUTLINE_"@
            + decimal_int(static_id) || name == "CDR_RUST_MERGED_"@ + decimal_int(static_id),
        is_replaced(SelectionOperation::MergeHoles, static_id, name) <==> name
            == "CDR_RUST_OUTLINE_"@ + decimal_int(static_id) || name == "CDR_RUST_HOLE_"@
            + decimal_int(static_id) || name == "CDR_RUST_MERGED_"@ + decimal_int(static_id),
        is_replaced(SelectionOperation::OutlineAndHole, static_id, name) <==> is_replaced(
            SelectionOperation::MergeHoles,
            static_id,
            name,
        ),
        is_replaced(SelectionOperation::TrimTransparent, static_id, name) <==> is_replaced(
            SelectionOperation::MergeHoles,
            static_id,
            name,
        ) || name == "CDR_RUST_TRIMMED_OUTLINE_"@ + decimal_int(static_id),
{
    lemma_prefixes();
    let number = decimal_int(static_id);
    assert forall|operation: SelectionOperation|
        #![trigger replaced_operations(operation)]
        is_replaced(operation, static_id, name) <==> exists|kind: SelectionOperation|
            #![trigger shape_name(kind, static_id)]
            replaced_operations(operation).contains(kind) && name == shape_name(
                kind,
                static_id,
            ) by {
        let kinds = replaced_operations(operation);
        if is_replaced(operation, static_id, name) {
            let k = choose|k: int|
                0 <= k < kinds.len() && name == shape_name(#[trigger] kinds[k], static_id);
            assert(kinds.contains(kinds[k]));
            assert(name == shape_name(kinds[k], static_id));
        }
        if exists|kind: SelectionOperation|
            #![trigger shape_name(kind, static_id)]
            kinds.contains(kind) && name == shape_name(kind, static_id) {
            let kind = choose|kind: SelectionOperation|
                #![trigger shape_name(kind, static_id)]
                kinds.contains(kind) && name == shape_name(kind, static_id);
            let k = choose|k: int| 0 <= k < kinds.len() && kinds[k] == kind;
            assert(name == shape_name(kinds[k], static_id));
        }
    }
    let outline = replaced_operations(SelectionOperation::Outline);
    assert(outline[0] == SelectionOperation::Outline);
    assert(outline[1] == SelectionOperation::MergeHoles);
    let merge = replaced_operations(SelectionOperation::MergeHoles);
    assert(merge[0] == SelectionOperation::Outline);
    assert(merge[1] == SelectionOperation::AddHoles);
    assert(merge[2] == SelectionOperation::MergeHoles);
    let both = replaced_operations(SelectionOperation::OutlineAndHole);
    assert(both == merge);
    let trim = replaced_operations(SelectionOperation::TrimTransparent);
    assert(trim[0] == SelectionOperation::Outline);
    assert(trim[1] == SelectionOperation::AddHoles);
    assert(trim[2] == SelectionOperation::MergeHoles);
    assert(trim[3] == SelectionOperation::TrimTransparent);
}

/// Nothing that was generated for another bitmap is replaced.
pub proof fn law_other_bitmaps_keep_their_results(
    operation: SelectionOperation,
    static_id: int,
    other_operation: SelectionOperation,
    other_id: int,
)
    requires
        i32::MIN <= static_id <= i32::MAX,
        i32::MIN <= other_id <= i32::MAX,
        static_id != other_id,
    ensures
        !is_replaced(operation, static_id, shape_name(other_operation, other_id)),
{
    let other = shape_name(other_operation, other_id);
    if is_replaced(operation, static_id, other) {
        let kinds = replaced_operations(operation);
        let k = choose|k: int|
            0 <= k < kinds.len() && other == shape_name(#[trigger] kinds[k], static_id);
        law_names_tell_their_bitmap(kinds[k], static_id, other_operation, other_id);
    }
}

/// Two generated objects of the same name were generated for the same bitmap.
pub proof fn law_names_tell_their_bitmap(
    operation: SelectionOperation,
    static_id: int,
    other_operation: SelectionOperation,
    other_id: int,
)
    requires
        i32::MIN <= static_id <= i32::MAX,
        i32::MIN <= other_id <= i32::MAX,
        shape_name(operation, static_id) == shape_name(other_operation, other_id),
    ensures
        static_id == other_id,
{
    let name = shape_name(operation, static_id);
    lemma_number_part(operation, static_id);
    lemma_number_part(other_operation, other_id);
}

/// The number of a generated object stands behind the last underscore of its name.
proof fn lemma_number_part(operation: SelectionOperation, static_id: int)
    requires
        i32::MIN <= static_id <= i32::MAX,
    ensures
        ({
            let name = shape_name(operation, static_id);
            last_of(name, '_', name.len() as int) matches Some(at) && signed_number(
                name.skip(at + 1),
            ) == Some(static_id)
        }),
{
    let name = shape_name(operation, static_id);
    let prefix = operation.spec_name_prefix();
    let number = decimal_int(static_id);
    let at = prefix.len() as int;
    lemma_decimal_has_no_underscore(
        if static_id < 0 {
            (-static_id) as nat
        } else {
            static_id as nat
        },
    );
    assert forall|i: int| at < i < name.len() implies name[i] != '_' by {
        assert(name[i] == number[i - at - 1]);
        if static_id < 0 && i > at + 1 {
            assert(number[i - at - 1] == decimal((-static_id) as nat)[i - at - 2]);
        }
    }
    lemma_last_of(name, '_', at, name.len() as int);
    assert(name.skip(at + 1) =~= number);
    law_decimal_int_reads_back(static_id);
}

/// A keyhole, an outline and a merged outline are told apart by their names.
pub proof fn law_kinds_are_told_apart(static_id: int)
    ensures
        names_a_hole("CDR_RUST_HOLE_"@ + decimal_int(static_id)),
        names_a_hole(shape_name(SelectionOperation::AddHoles, static_id)),
        !names_a_hole(shape_name(SelectionOperation::Outline, static_id)),
        !names_a_hole(shape_name(SelectionOperation::TrimTransparent, static_id)),
        !names_a_hole(shape_name(SelectionOperation::MergeHoles, static_id)),
        names_a_merged_outline(shape_name(SelectionOperation::MergeHoles, static_id)),
        names_a_merged_outline(shape_name(SelectionOperation::OutlineAndHole, static_id)),
        !names_a_merged_outline(shape_name(SelectionOperation::AddHoles, static_id)),
        !names_a_merged_outline(shape_name(SelectionOperation::Outline, static_id)),
{
    lemma_prefixes();
    let number = decimal_int(static_id);
    let hole = "CDR_RUST_HOLE_"@;
    let merged = "CDR_RUST_MERGED_"@;
    assert((hole + number).subrange(0, hole.len() as int) =~= hole);
    assert((merged + number).subrange(0, merged.len() as int) =~= merged);
    lemma_tenth(shape_name(SelectionOperation::Outline, static_id), hole);
    lemma_tenth(shape_name(SelectionOperation::TrimTransparent, static_id), hole);
    lemma_tenth(shape_name(SelectionOperation::MergeHoles, static_id), hole);
    lemma_tenth(shape_name(SelectionOperation::AddHoles, static_id), merged);
    lemma_tenth(shape_name(SelectionOperation::Outline, static_id), merged);
}

proof fn lemma_tenth(name: Seq<char>, prefix: Seq<char>)
    requires
        name.len() > 9,
        prefix.len() > 9,
        name[9] != prefix[9],
    ensures
        !stands_at(name, prefix, 0),
{
    if stands_at(name, prefix, 0) {
        assert(name.subrange(0, prefix.len() as int)[9] == name[9]);
    }
}

// ---------------------------------------------------------------------------
// New layers
// ---------------------------------------------------------------------------

proof fn lemma_free_layer(names: Seq<Seq<char>>, base: Seq<char>, number: int)
    requires
        1 <= number <= 10_001,
    ensures
        match free_layer(names, base, number) {
            Some(name) => !names.contains(name) && exists|k: int|
                number <= k <= 10_000 && name == #[trigger] layer_candidate(base, k) && forall|j:
                    int| number <= j < k ==> names.contains(#[trigger] layer_candidate(base, j)),
            None => forall|k: int|
                number <= k <= 10_000 ==> names.contains(#[trigger] layer_candidate(base, k)),
        },
    decreases 10_001 - number,
{
    if number <= 10_000 {
        if names.contains(layer_candidate(base, number)) {
            lemma_free_layer(names, base, number + 1);
            if free_layer(names, base, number) is Some {
                let name = free_layer(names, base, number).unwrap();
                let k = choose|k: int|
                    number + 1 <= k <= 10_000 && name == #[trigger] layer_candidate(base, k)
                        && forall|j: int|
                        number + 1 <= j < k ==> names.contains(#[trigger] layer_candidate(base, j));
                assert(name == layer_candidate(base, k));
            }
        } else {
            assert(free_layer(names, base, number) == Some(layer_candidate(base, number)));
        }
    }
}

/// A new layer has a name that no layer has: the wanted one if it is free, and else the
/// wanted one with the smallest number behind it, from two on, that makes it free. There is
/// none only if all of these are taken.
pub proof fn law_new_layers_are_new(names: Seq<Seq<char>>, base: Seq<char>)
    ensures
        !names.contains(base) ==> free_layer(names, base, 1) == Some(base),
        match free_layer(names, base, 1) {
            Some(name) => !names.contains(name) && (name == base || exists|k: nat|
                #![trigger decimal(k)]
                {
                    &&& 2 <= k <= 10_000
                    &&& name == base + " "@ + decimal(k)
                    &&& forall|j: nat|
                        2 <= j < k ==> names.contains(base + " "@ + #[trigger] decimal(j))
                }),
            None => names.contains(base) && forall|k: nat|
                2 <= k <= 10_000 ==> names.contains(base + " "@ + #[trigger] decimal(k)),
        },
{
    lemma_free_layer(names, base, 1);
    assert(layer_candidate(base, 1) == base);
    match free_layer(names, base, 1) {
        Some(name) => {
            let k = choose|k: int|
                1 <= k <= 10_000 && name == #[trigger] layer_candidate(base, k) && forall|j: int|
                    1 <= j < k ==> names.contains(#[trigger] layer_candidate(base, j));
            if k > 1 {
                let n = k as nat;
                assert(name == base + " "@ + decimal(n));
                assert forall|j: nat| 2 <= j < n implies names.contains(
                    base + " "@ + #[trigger] decimal(j),
                ) by {
                    assert(names.contains(layer_candidate(base, j as int)));
                }
            }
        },
        None => {
            assert(names.contains(layer_candidate(base, 1)));
            assert forall|k: nat| 2 <= k <= 10_000 implies names.contains(
                base + " "@ + #[trigger] decimal(k),
            ) by {
                assert(names.contains(layer_candidate(base, k as int)));
            }
        },
    }
}

/// Every operation has a layer of its own.
pub proof fn law_operations_have_their_own_layers(a: SelectionOperation, b: SelectionOperation)
    requires
        a != b,
    ensures
        a.spec_layer_name() != b.spec_layer_name(),
{
    reveal_strlit("RUST_OUTLINE");
    reveal_strlit("RUST_HOLES");
    reveal_strlit("RUST_MERGED");
    reveal_strlit("RUST_TRIMMED_OUTLINE");
    reveal_strlit("RUST_OUTPUT");
    assert("RUST_OUTLINE"@.len() == 12 && "RUST_HOLES"@.len() == 10);
    assert("RUST_MERGED"@.len() == 11 && "RUST_OUTPUT"@.len() == 11);
    assert("RUST_TRIMMED_OUTLINE"@.len() == 20);
    assert("RUST_MERGED"@[5] == 'M' && "RUST_OUTPUT"@[5] == 'O');
}

/// Curves are merged, and so are the outlines in a group that was generated for a bitmap: plain
/// ones, trimmed ones and merged ones. Keyholes in such a group, other groups, and what is
/// neither a curve nor a group have no part in it.
pub proof fn law_outlines_take_part_in_a_merge(shape_type: i32, name: Seq<char>, static_id: int)
    requires
        i32::MIN <= static_id <= i32::MAX,
    ensures
        takes_part(3, shape_name(SelectionOperation::Outline, static_id)),
        takes_part(3, shape_name(SelectionOperation::TrimTransparent, static_id)),
        takes_part(3, shape_name(SelectionOperation::MergeHoles, static_id)),
        !takes_part(3, shape_name(SelectionOperation::AddHoles, static_id)),
        takes_part(shape_type, name) ==> shape_type == 3,
        merge_candidate(3, name) is Curve,
        merge_candidate(7, shape_name(SelectionOperation::Outline, static_id)) is Parts,
        merge_candidate(7, shape_name(SelectionOperation::TrimTransparent, static_id)) is Parts,
        merge_candidate(7, shape_name(SelectionOperation::AddHoles, static_id)) is Ignore,
        merge_candidate(7, shape_name(SelectionOperation::MergeHoles, static_id)) is Ignore,
        shape_type != 3 && shape_type != 7 ==> merge_candidate(shape_type, name) is Ignore,
{
    law_outline_names_resolve(SelectionOperation::Outline, static_id);
    law_outline_names_resolve(SelectionOperation::TrimTransparent, static_id);
    law_outline_names_resolve(SelectionOperation::AddHoles, static_id);
    law_outline_names_resolve(SelectionOperation::MergeHoles, static_id);
    law_kinds_are_told_apart(static_id);
}

/// Only what was generated may be written, and the one object of older tests.
pub proof fn law_only_generated_names_are_supported(name: Seq<char>)
    requires
        is_supported_name(name),
    ensures
        name == "h_xbxb"@ || stands_at(name, "CDR_RUST_OUTLINE_"@, 0) || stands_at(
            name,
            "CDR_RUST_HOLE_"@,
            0,
        ) || stands_at(name, "CDR_RUST_MERGED_"@, 0) || stands_at(
            name,
            "CDR_RUST_TRIMMED_OUTLINE_"@,
            0,
        ),
{
    if name != "h_xbxb"@ {
        lemma_prefixes();
        let at = last_of(name, '_', name.len() as int).unwrap();
        lemma_last_of_found(name, '_', name.len() as int);
        let operation = choose|operation: SelectionOperation|
            name.take(at) == #[trigger] operation.spec_name_prefix();
        let start = operation.spec_name_prefix() + seq!['_'];
        assert(name.subrange(0, at + 1) =~= start);
        let number = decimal_int(0);
        assert(shape_name(operation, 0) =~= start + number);
        match operation {
            SelectionOperation::Outline => {
                lemma_same_start(start, "CDR_RUST_OUTLINE_"@, number);
            },
            SelectionOperation::AddHoles => {
                lemma_same_start(start, "CDR_RUST_HOLE_"@, number);
            },
            SelectionOperation::TrimTransparent => {
                lemma_same_start(start, "CDR_RUST_TRIMMED_OUTLINE_"@, number);
            },
            _ => {
                lemma_same_start(start, "CDR_RUST_MERGED_"@, number);
            },
        }
    }
}

proof fn lemma_same_start(a: Seq<char>, b: Seq<char>, end: Seq<char>)
    requires
        a + end == b + end,
    ensures
        a == b,
{
    assert((a + end).len() == a.len() + end.len());
    assert((b + end).len() == b.len() + end.len());
    assert forall|i: int| 0 <= i < a.len() implies a[i] == b[i] by {
        assert((a + end)[i] == a[i]);
        assert((b + end)[i] == b[i]);
    }
    assert(a =~= b);
}

proof fn lemma_last_of_found(s: Seq<char>, c: char, end: int)
    requires
        end <= s.len(),
    ensures
        last_of(s, c, end) matches Some(at) ==> 0 <= at < end && s[at] == c,
    decreases end,
{
    if end > 0 && s[end - 1] != c {
        lemma_last_of_found(s, c, end - 1);
    }
}

} // verus!
