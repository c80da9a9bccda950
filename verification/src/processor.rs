//! How the desktop program and the processor talk: the arguments that the processor is
//! started with, and the lines that it prints.

use vstd::prelude::*;

use crate::cli::{command_of, CliCommand, CliError, SpecArgument};
use crate::names::SelectionOperation;
use crate::selection::{
    default_settings, ProcessingSettings, HOLE_DIAMETER_MM, HOLE_EDGE_CLEARANCE_MM,
    OUTLINE_OFFSET_MM, SMOOTHING_MM, TOOL_DIAMETER_MM,
};
use crate::text::{
    after_prefix, chars_of, copy_range, decimal_int, find_char, first_of, is_white_space,
    lemma_first_of, lines, lines_from, parts_of, push_decimal_int, stands_at, string_of,
    strip_prefix, trim, trimmed, trimmed_end, trimmed_start,
};

verus! {

// ---------------------------------------------------------------------------
// Arguments
// ---------------------------------------------------------------------------

/// The measurements that the desktop program shows, as they are written.
#[derive(Debug, Clone)]
pub struct ParameterTexts {
    pub outline_offset: String,
    pub hole_diameter: String,
    pub hole_edge_clearance: String,
    pub tool_diameter: String,
    pub smoothing: String,
}

/// The arguments that start an operation.
pub open spec fn spec_arguments(operation: SelectionOperation, texts: ParameterTexts) -> Seq<
    Seq<char>,
> {
    match operation {
        SelectionOperation::Outline => seq![
            "outline-selection"@,
            texts.outline_offset@,
            texts.tool_diameter@,
            texts.smoothing@,
        ],
        SelectionOperation::AddHoles => seq![
            "add-selection-holes"@,
            texts.hole_diameter@,
            texts.hole_edge_clearance@,
        ],
        SelectionOperation::MergeHoles => seq!["merge-selected-holes"@],
        SelectionOperation::TrimTransparent => seq![
            "trim-transparent-selection"@,
            texts.outline_offset@,
            texts.tool_diameter@,
            texts.smoothing@,
        ],
        SelectionOperation::OutlineAndHole => seq![
            "process-selection-settings"@,
            texts.outline_offset@,
            texts.hole_diameter@,
            texts.hole_edge_clearance@,
            texts.tool_diameter@,
            texts.smoothing@,
        ],
    }
}

pub open spec fn texts_of(texts: Seq<String>) -> Seq<Seq<char>> {
    texts.map_values(|text: String| text@)
}

/// The arguments that start an operation.
pub fn processing_arguments(operation: SelectionOperation, texts: ParameterTexts) -> (res: Vec<
    String,
>)
    ensures
        texts_of(res@) == spec_arguments(operation, texts),
{
    let mut res: Vec<String> = Vec::new();
    match operation {
        SelectionOperation::Outline => {
            res.push("outline-selection".to_owned());
            res.push(texts.outline_offset);
            res.push(texts.tool_diameter);
            res.push(texts.smoothing);
        },
        SelectionOperation::AddHoles => {
            res.push("add-selection-holes".to_owned());
            res.push(texts.hole_diameter);
            res.push(texts.hole_edge_clearance);
        },
        SelectionOperation::MergeHoles => {
            res.push("merge-selected-holes".to_owned());
        },
        SelectionOperation::TrimTransparent => {
            res.push("trim-transparent-selection".to_owned());
            res.push(texts.outline_offset);
            res.push(texts.tool_diameter);
            res.push(texts.smoothing);
        },
        SelectionOperation::OutlineAndHole => {
            res.push("process-selection-settings".to_owned());
            res.push(texts.outline_offset);
            res.push(texts.hole_diameter);
            res.push(texts.hole_edge_clearance);
            res.push(texts.tool_diameter);
            res.push(texts.smoothing);
        },
    }
    assert(texts_of(res@) =~= spec_arguments(operation, texts));
    res
}

/// The argument that starts an export.
pub open spec fn spec_export_argument(selected: bool) -> Seq<char> {
    if selected {
        "export-selection-svg"@
    } else {
        "export-page-svg"@
    }
}

/// The argument that starts an export.
pub fn export_argument(selected: bool) -> (res: &'static str)
    ensures
        res@ == spec_export_argument(selected),
{
    if selected {
        "export-selection-svg"
    } else {
        "export-page-svg"
    }
}

/// The processor's view of arguments: every text but the first stands for the number in
/// its place.
pub open spec fn arguments_with(texts: Seq<Seq<char>>, numbers: Seq<u64>) -> Seq<SpecArgument> {
    Seq::new(
        texts.len(),
        |i: int|
            SpecArgument {
                text: Some(texts[i]),
                number: if i == 0 {
                    None
                } else {
                    Some(numbers[i - 1])
                },
            },
    )
}

/// The settings that an operation is started with, by the numbers behind its name.
pub open spec fn settings_with(operation: SelectionOperation, numbers: Seq<u64>) -> ProcessingSettings {
    match operation {
        SelectionOperation::Outline | SelectionOperation::TrimTransparent => ProcessingSettings {
            outline_offset_mm: numbers[0],
            hole_diameter_mm: HOLE_DIAMETER_MM,
            hole_edge_clearance_mm: HOLE_EDGE_CLEARANCE_MM,
            tool_diameter_mm: numbers[1],
            smoothing_mm: numbers[2],
        },
        SelectionOperation::AddHoles => ProcessingSettings {
            outline_offset_mm: OUTLINE_OFFSET_MM,
            hole_diameter_mm: numbers[0],
            hole_edge_clearance_mm: numbers[1],
            tool_diameter_mm: TOOL_DIAMETER_MM,
            smoothing_mm: SMOOTHING_MM,
        },
        SelectionOperation::MergeHoles => default_settings(),
        SelectionOperation::OutlineAndHole => ProcessingSettings {
            outline_offset_mm: numbers[0],
            hole_diameter_mm: numbers[1],
            hole_edge_clearance_mm: numbers[2],
            tool_diameter_mm: numbers[3],
            smoothing_mm: numbers[4],
        },
    }
}

/// The processor does what the desktop program starts it for: the operation, with the
/// measurements that are shown.
pub proof fn law_the_processor_understands_the_desktop(
    operation: SelectionOperation,
    texts: ParameterTexts,
    numbers: Seq<u64>,
)
    ensures
        command_of(arguments_with(spec_arguments(operation, texts), numbers)) == Ok::<
            CliCommand,
            CliError,
        >(
            CliCommand::Process {
                settings: settings_with(operation, numbers),
                operation,
                report: None,
            },
        ),
{
    reveal_strlit("probe");
    reveal_strlit("export-selection-svg");
    reveal_strlit("export-page-svg");
    reveal_strlit("process-selection");
    reveal_strlit("outline-selection");
    reveal_strlit("merge-selected-holes");
    reveal_strlit("trim-transparent-selection");
    let merge = "merge-selected-holes"@;
    assert("probe"@.len() != merge.len());
    assert("export-selection-svg"@[0] != merge[0]);
    assert("export-page-svg"@.len() != merge.len());
    assert("process-selection"@.len() != merge.len());
    assert("outline-selection"@.len() != "trim-transparent-selection"@.len());
    let arguments = arguments_with(spec_arguments(operation, texts), numbers);
    assert(arguments[0].text == Some(spec_arguments(operation, texts)[0]));
}

/// The processor exports what the desktop program starts it for.
pub proof fn law_the_processor_understands_an_export(selected: bool)
    ensures
        command_of(arguments_with(seq![spec_export_argument(selected)], Seq::empty())) == Ok::<
            CliCommand,
            CliError,
        >(CliCommand::ExportSvg { output: None, selected }),
{
    reveal_strlit("probe");
    reveal_strlit("export-selection-svg");
    reveal_strlit("export-page-svg");
    assert("probe"@.len() != "export-selection-svg"@.len());
    assert("probe"@.len() != "export-page-svg"@.len());
    assert("export-selection-svg"@.len() != "export-page-svg"@.len());
    let arguments = arguments_with(seq![spec_export_argument(selected)], Seq::empty());
    assert(arguments[0].text == Some(spec_export_argument(selected)));
}

// ---------------------------------------------------------------------------
// Lines
// ---------------------------------------------------------------------------

/// The line that tells how far the processor is.
pub open spec fn spec_progress_line(value: Seq<char>, stage: Seq<char>) -> Seq<char> {
    "__CDR_PROGRESS__\t"@ + value + "\t"@ + stage
}

/// The line that tells how far the processor is.
pub fn progress_line(value: &str, stage: &str) -> (res: String)
    ensures
        res@ == spec_progress_line(value@, stage@),
{
    let mut res = "__CDR_PROGRESS__\t".to_owned();
    res.push_str(value);
    res.push_str("\t");
    res.push_str(stage);
    res
}

/// The line that tells where a file was exported to.
pub open spec fn spec_export_line(path: Seq<char>) -> Seq<char> {
    "__CDR_EXPORT__\t"@ + path
}

/// The line that tells where a file was exported to.
pub fn export_line(path: &str) -> (res: String)
    ensures
        res@ == spec_export_line(path@),
{
    let mut res = "__CDR_EXPORT__\t".to_owned();
    res.push_str(path);
    res
}

/// The line that tells a reader where a file was exported to.
pub open spec fn spec_exported_message(path: Seq<char>) -> Seq<char> {
    "SVG 导出完成："@ + path
}

/// The line that tells a reader where a file was exported to.
pub fn exported_message(path: &str) -> (res: String)
    ensures
        res@ == spec_exported_message(path@),
{
    let mut res = "SVG 导出完成：".to_owned();
    res.push_str(path);
    res
}

/// What a line of the processor is.
pub enum SpecLine {
    /// How far it is, and what it does.
    Progress { value: Seq<char>, stage: Seq<char> },
    /// A part of its summary.
    Summary,
    /// Nothing.
    Nothing,
}

/// What a line of the processor is.
pub open spec fn read_line(line: Seq<char>) -> SpecLine {
    match after_prefix(line, "__CDR_PROGRESS__\t"@) {
        Some(progress) => if first_of(progress, '\t', 0) < progress.len() {
            SpecLine::Progress {
                value: progress.take(first_of(progress, '\t', 0)),
                stage: progress.skip(first_of(progress, '\t', 0) + 1),
            }
        } else {
            SpecLine::Nothing
        },
        None => if trimmed(line).len() == 0 {
            SpecLine::Nothing
        } else {
            SpecLine::Summary
        },
    }
}

/// Progress that is told is read.
pub proof fn law_progress_reads_back(value: Seq<char>, stage: Seq<char>)
    requires
        forall|i: int| 0 <= i < value.len() ==> value[i] != '\t',
    ensures
        read_line(spec_progress_line(value, stage)) == (SpecLine::Progress { value, stage }),
{
    reveal_strlit("\t");
    let marker = "__CDR_PROGRESS__\t"@;
    let line = spec_progress_line(value, stage);
    assert(line.subrange(0, marker.len() as int) =~= marker);
    let rest = line.skip(marker.len() as int);
    assert(rest =~= value + "\t"@ + stage);
    lemma_first_of(rest, '\t', 0);
    let at = first_of(rest, '\t', 0);
    if at < value.len() {
        assert(rest[at] == value[at]);
    }
    if at > value.len() {
        assert(rest[value.len() as int] == '\t');
    }
    assert(rest.take(at) =~= value);
    assert(rest.skip(at + 1) =~= stage);
}

/// How far the processor is, and what it does.
#[derive(Debug, Clone)]
pub struct Progress {
    pub value: String,
    pub stage: String,
}

/// What the processor has printed.
#[derive(Debug, Clone)]
pub struct Transcript {
    pub summary: String,
}

impl Transcript {
    /// Nothing is printed yet.
    pub fn new() -> (res: Transcript)
        ensures
            res.summary@ == Seq::<char>::empty(),
    {
        Transcript { summary: String::new() }
    }

    /// Takes a line; gives the progress that it tells, if it does.
    pub fn take(&mut self, line: &str) -> (res: Option<Progress>)
        ensures
            match read_line(line@) {
                SpecLine::Progress { value, stage } => res is Some && res->0.value@ == value
                    && res->0.stage@ == stage && final(self).summary@ == old(self).summary@,
                SpecLine::Summary => res is None && final(self).summary@ == old(self).summary@
                    + line@ + "\n"@,
                SpecLine::Nothing => res is None && final(self).summary@ == old(self).summary@,
            },
    {
        let chars = chars_of(line);
        match strip_prefix(chars.as_slice(), "__CDR_PROGRESS__\t") {
            Some(progress) => {
                let at: usize = find_char(progress.as_slice(), '\t', 0);
                if at == progress.len() {
                    return None;
                }
                let value = copy_range(progress.as_slice(), 0, at);
                let stage = copy_range(progress.as_slice(), at + 1, progress.len());
                assert(value@ =~= progress@.take(at as int));
                assert(stage@ =~= progress@.skip(at + 1));
                Some(
                    Progress {
                        value: string_of(value.as_slice()),
                        stage: string_of(stage.as_slice()),
                    },
                )
            },
            None => {
                let text = trim(chars.as_slice());
                if text.len() > 0 {
                    self.summary.push_str(line);
                    self.summary.push_str("\n");
                }
                None
            },
        }
    }

    /// What the processor came to, when it has ended: what went wrong is what it printed
    /// as errors, or else its summary.
    pub fn finish(&self, succeeded: bool, code: Option<i32>, errors: &str) -> (res: Result<
        String,
        String,
    >)
        ensures
            match res {
                Ok(summary) => succeeded && summary@ == trimmed(self.summary@),
                Err(message) => !succeeded && message@ == spec_failure(
                    match code {
                        Some(code) => Some(code as int),
                        None => None,
                    },
                    errors@,
                    self.summary@,
                ),
            },
    {
        let summary_chars = chars_of(self.summary.as_str());
        let summary = trim(summary_chars.as_slice());
        if succeeded {
            return Ok(string_of(summary.as_slice()));
        }
        let error_chars = chars_of(errors);
        let detail = trim(error_chars.as_slice());
        let mut message = "处理失败（退出码 ".to_owned();
        match code {
            Some(code) => {
                message.push_str("Some(");
                push_decimal_int(&mut message, code);
                message.push_str(")");
            },
            None => {
                message.push_str("None");
            },
        }
        message.push_str("）：");
        if detail.len() == 0 {
            message.push_str(string_of(summary.as_slice()).as_str());
        } else {
            message.push_str(string_of(detail.as_slice()).as_str());
        }
        Err(message)
    }
}

/// An exit code as it is shown.
pub open spec fn shown_code(code: Option<int>) -> Seq<char> {
    match code {
        Some(code) => "Some("@ + decimal_int(code) + ")"@,
        None => "None"@,
    }
}

/// What is told when the processor has failed.
pub open spec fn spec_failure(code: Option<int>, errors: Seq<char>, summary: Seq<char>) -> Seq<
    char,
> {
    "处理失败（退出码 "@ + shown_code(code) + "）："@ + (if trimmed(errors).len() == 0 {
        trimmed(summary)
    } else {
        trimmed(errors)
    })
}

// ---------------------------------------------------------------------------
// Exported files
// ---------------------------------------------------------------------------

/// The path that a line tells, if it tells one.
pub open spec fn exported_path(line: Seq<char>) -> Option<Seq<char>> {
    match after_prefix(line, "__CDR_EXPORT__\t"@) {
        Some(path) => Some(trimmed(path)),
        None => None,
    }
}

/// The paths that the first `end` lines tell.
pub open spec fn exported_paths(all: Seq<Seq<char>>, end: int) -> Seq<Seq<char>>
    decreases end,
{
    if end <= 0 {
        Seq::empty()
    } else {
        match exported_path(all[end - 1]) {
            Some(path) => exported_paths(all, end - 1).push(path),
            None => exported_paths(all, end - 1),
        }
    }
}

/// The paths that a summary tells.
pub open spec fn summary_paths(summary: Seq<char>) -> Seq<Seq<char>> {
    let all = lines_from(summary, 0);
    exported_paths(all, all.len() as int)
}

/// The paths that a summary tells, in their order. The first of them that is absolute
/// and has an extension is the exported file.
pub fn export_path_candidates(summary: &str) -> (res: Vec<String>)
    ensures
        texts_of(res@) == summary_paths(summary@),
{
    let chars = chars_of(summary);
    let all = lines(chars.as_slice());
    let mut res: Vec<String> = Vec::new();
    assert(texts_of(res@) =~= Seq::empty());
    for i in 0..all.len()
        invariant
            texts_of(res@) == exported_paths(parts_of(all@), i as int),
    {
        assert(parts_of(all@)[i as int] == all@[i as int]@);
        if let Some(path) = strip_prefix(all[i].as_slice(), "__CDR_EXPORT__\t") {
            let ghost before = res@;
            let text = trim(path.as_slice());
            let given = string_of(text.as_slice());
            res.push(given);
            assert(texts_of(res@) =~= texts_of(before).push(given@));
        }
    }
    res
}

/// The exported file of a summary: the first path that it tells for which `usable` holds
/// that it is absolute and has an extension. `usable` speaks of the candidates in their
/// order.
pub fn export_path_from_summary(summary: &str, usable: &[bool]) -> (res: Option<String>)
    ensures
        match res {
            Some(path) => exists|i: int|
                is_first_usable(usable@, i) && i < summary_paths(summary@).len() && path@
                    == summary_paths(summary@)[i],
            None => forall|i: int|
                0 <= i < summary_paths(summary@).len() && i < usable@.len() ==> !usable@[i],
        },
{
    let candidates = export_path_candidates(summary);
    let count: usize = candidates.len();
    let mut i: usize = 0;
    for path in iter: candidates
        invariant
            i == iter.index(),
            texts_of(iter.seq()) == summary_paths(summary@),
            forall|k: int| 0 <= k < i && k < usable@.len() ==> !usable@[k],
            iter.seq().len() == count,
    {
        assert(texts_of(iter.seq())[i as int] == path@);
        if i < usable.len() && usable[i] {
            assert(is_first_usable(usable@, i as int));
            return Some(path);
        }
        i = i + 1;
    }
    None
}

/// Whether the flag with this index is the first that is set.
pub open spec fn is_first_usable(usable: Seq<bool>, i: int) -> bool {
    0 <= i < usable.len() && usable[i] && forall|k: int| 0 <= k < i ==> !usable[k]
}

proof fn lemma_trimmed_end(s: Seq<char>, j: int)
    requires
        0 <= j < s.len(),
        !is_white_space(s[j]),
    ensures
        j < trimmed_end(s).len() <= s.len(),
        trimmed_end(s) == s.take(trimmed_end(s).len() as int),
    decreases s.len(),
{
    if s.len() > 0 && is_white_space(s[s.len() - 1]) {
        let shorter = s.take(s.len() - 1);
        assert(shorter[j] == s[j]);
        lemma_trimmed_end(shorter, j);
        assert(trimmed_end(s) == trimmed_end(shorter));
        assert(trimmed_end(s) =~= s.take(trimmed_end(s).len() as int));
    } else {
        assert(s.take(s.len() as int) =~= s);
    }
}

proof fn lemma_paths_grow(all: Seq<Seq<char>>, end: int)
    requires
        1 <= end,
        exported_path(all[0]) is Some,
    ensures
        exported_paths(all, end).len() >= 1,
        Some(exported_paths(all, end)[0]) == exported_path(all[0]),
    decreases end,
{
    if end > 1 {
        lemma_paths_grow(all, end - 1);
    } else {
        assert(exported_paths(all, 0) =~= Seq::empty());
    }
}

/// What the processor prints when it has exported a file.
pub open spec fn export_transcript(path: Seq<char>) -> Seq<char> {
    spec_export_line(path) + "\n"@ + spec_exported_message(path) + "\n"@
}

/// The path of an exported file is the first that the summary of the export tells. A
/// path does not break a line.
pub proof fn law_exported_path_reads_back(path: Seq<char>)
    requires
        forall|i: int| 0 <= i < path.len() ==> path[i] != '\n',
    ensures
        summary_paths(trimmed(export_transcript(path))).len() >= 1,
        summary_paths(trimmed(export_transcript(path)))[0] == trimmed(path),
{
    reveal_strlit("\n");
    reveal_strlit("__CDR_EXPORT__\t");
    reveal_strlit("SVG 导出完成：");
    let marker = "__CDR_EXPORT__\t"@;
    let line = spec_export_line(path);
    let whole = export_transcript(path);
    let second = line.len() + 1;
    assert(whole[0] == marker[0]);
    assert(trimmed_start(whole) == whole);
    assert(whole[second as int] == "SVG 导出完成："@[0]);
    lemma_trimmed_end(whole, second as int);
    let summary = trimmed(whole);
    assert(summary == whole.take(summary.len() as int));
    assert forall|i: int| 0 <= i < line.len() implies #[trigger] summary[i] == line[i] by {
        assert(whole[i] == line[i]);
    }
    assert(summary[line.len() as int] == '\n');
    assert forall|i: int| 0 <= i < line.len() implies line[i] != '\n' by {
        if i < marker.len() {
            assert(line[i] == marker[i]);
        } else {
            assert(line[i] == path[i - marker.len()]);
        }
    }
    lemma_first_of(summary, '\n', 0);
    let at = first_of(summary, '\n', 0);
    assert(at == line.len());
    let all = lines_from(summary, 0);
    let end = if summary[at - 1] == '\r' {
        at - 1
    } else {
        at
    };
    assert(all[0] == summary.subrange(0, end));
    assert(all[0] =~= line.take(end));
    if end == at {
        assert(all[0] =~= line);
        assert(line.subrange(0, marker.len() as int) =~= marker);
        assert(line.skip(marker.len() as int) =~= path);
    } else {
        assert(line[at - 1] == '\r');
        assert(path.len() > 0 && path[path.len() - 1] == '\r');
        let shorter = path.take(path.len() - 1);
        assert(all[0].subrange(0, marker.len() as int) =~= marker);
        assert(all[0].skip(marker.len() as int) =~= shorter);
        lemma_trimmed_without_end(path);
    }
    lemma_paths_grow(all, all.len() as int);
}

/// White space at the end makes no difference to a trimmed text.
proof fn lemma_trimmed_without_end(s: Seq<char>)
    requires
        s.len() > 0,
        is_white_space(s[s.len() - 1]),
    ensures
        trimmed(s.take(s.len() - 1)) == trimmed(s),
    decreases s.len(),
{
    let shorter = s.take(s.len() - 1);
    if is_white_space(s[0]) {
        if s.len() > 1 {
            assert(s.skip(1).take(s.len() - 2) =~= shorter.skip(1));
            lemma_trimmed_without_end(s.skip(1));
        } else {
            assert(s.skip(1) =~= shorter);
        }
    } else {
        assert(trimmed_start(s) == s);
        assert(trimmed_start(shorter) == shorter);
    }
}

// ---------------------------------------------------------------------------
// What the processor came to
// ---------------------------------------------------------------------------

/// The paths that lines tell are those of the lines with the mark, in their order.
pub proof fn law_paths_are_told_line_by_line(
    all: Seq<Seq<char>>,
    path: Seq<char>,
    other: Seq<char>,
)
    requires
        !stands_at(other, "__CDR_EXPORT__\t"@, 0),
    ensures
        exported_paths(all.push(spec_export_line(path)), (all.len() + 1) as int)
            == exported_paths(all, all.len() as int).push(trimmed(path)),
        exported_paths(all.push(other), (all.len() + 1) as int) == exported_paths(
            all,
            all.len() as int,
        ),
        exported_paths(Seq::empty(), 0) == Seq::<Seq<char>>::empty(),
{
    let marker = "__CDR_EXPORT__\t"@;
    let line = spec_export_line(path);
    assert(line.subrange(0, marker.len() as int) =~= marker);
    assert(line.skip(marker.len() as int) =~= path);
    lemma_paths_prefix(all, all.push(line), all.len() as int);
    lemma_paths_prefix(all, all.push(other), all.len() as int);
}

proof fn lemma_paths_prefix(a: Seq<Seq<char>>, b: Seq<Seq<char>>, end: int)
    requires
        0 <= end <= a.len(),
        end <= b.len(),
        forall|i: int| 0 <= i < end ==> a[i] == b[i],
    ensures
        exported_paths(a, end) == exported_paths(b, end),
    decreases end,
{
    if end > 0 {
        lemma_paths_prefix(a, b, end - 1);
    }
}

/// A failure is told with its code and with what was printed as errors; with the summary where
/// nothing was.
pub proof fn law_failures_tell_their_errors(
    code: Option<int>,
    errors: Seq<char>,
    summary: Seq<char>,
)
    ensures
        trimmed(errors).len() > 0 ==> spec_failure(code, errors, summary) == "处理失败（退出码 "@
            + shown_code(code) + "）："@ + trimmed(errors),
        trimmed(errors).len() == 0 ==> spec_failure(code, errors, summary)
            == "处理失败（退出码 "@ + shown_code(code) + "）："@ + trimmed(summary),
{
}

/// A line of the processor is progress if it is marked so and has two parts, nothing if it is
/// blank, and a part of the summary otherwise; a line that tells of a file is one.
pub proof fn law_lines_are_told_apart(line: Seq<char>, path: Seq<char>)
    ensures
        read_line(line) is Progress ==> stands_at(line, "__CDR_PROGRESS__\t"@, 0),
        !stands_at(line, "__CDR_PROGRESS__\t"@, 0) ==> (read_line(line) is Summary <==> trimmed(
            line,
        ).len() > 0),
        read_line(spec_export_line(path)) is Summary,
{
    reveal_strlit("__CDR_EXPORT__\t");
    reveal_strlit("__CDR_PROGRESS__\t");
    let told = spec_export_line(path);
    let marker = "__CDR_PROGRESS__\t"@;
    assert(told[6] == 'E');
    if stands_at(told, marker, 0) {
        assert(told.subrange(0, marker.len() as int)[6] == marker[6]);
    }
    assert(told[0] == '_');
    assert(trimmed_start(told) == told);
    lemma_trimmed_end(told, 0);
}

/// The processor's view of arguments, where `number` tells what number a text is.
pub open spec fn arguments_as(
    texts: Seq<Seq<char>>,
    number: spec_fn(Seq<char>) -> u64,
) -> Seq<SpecArgument> {
    Seq::new(
        texts.len(),
        |i: int|
            SpecArgument {
                text: Some(texts[i]),
                number: if i == 0 {
                    None
                } else {
                    Some(number(texts[i]))
                },
            },
    )
}

/// Every measurement that is shown is used for what it is shown for: the offset for the outline,
/// the diameter and the clearance for the hole, the tool and the smoothing for the outline. What
/// an operation does not need is as usual.
pub proof fn law_measurements_are_used_for_what_they_are_shown_for(
    operation: SelectionOperation,
    texts: ParameterTexts,
    number: spec_fn(Seq<char>) -> u64,
)
    ensures
        command_of(arguments_as(spec_arguments(operation, texts), number)) matches Ok(
            CliCommand::Process { settings, operation: asked, report },
        ) && {
            let outlines = operation == SelectionOperation::Outline || operation
                == SelectionOperation::TrimTransparent || operation
                == SelectionOperation::OutlineAndHole;
            let holes = operation == SelectionOperation::AddHoles || operation
                == SelectionOperation::OutlineAndHole;
            let usual = default_settings();
            &&& asked == operation
            &&& report is None
            &&& settings.outline_offset_mm == if outlines {
                number(texts.outline_offset@)
            } else {
                usual.outline_offset_mm
            }
            &&& settings.tool_diameter_mm == if outlines {
                number(texts.tool_diameter@)
            } else {
                usual.tool_diameter_mm
            }
            &&& settings.smoothing_mm == if outlines {
                number(texts.smoothing@)
            } else {
                usual.smoothing_mm
            }
            &&& settings.hole_diameter_mm == if holes {
                number(texts.hole_diameter@)
            } else {
                usual.hole_diameter_mm
            }
            &&& settings.hole_edge_clearance_mm == if holes {
                number(texts.hole_edge_clearance@)
            } else {
                usual.hole_edge_clearance_mm
            }
        },
{
    let shown = spec_arguments(operation, texts);
    let numbers = Seq::new((shown.len() - 1) as nat, |i: int| number(shown[i + 1]));
    assert(arguments_as(shown, number) =~= arguments_with(shown, numbers));
    law_the_processor_understands_the_desktop(operation, texts, numbers);
}

} // verus!
