//! The command line of the processor.

use vstd::prelude::*;

use crate::names::SelectionOperation;
use crate::selection::{
    default_settings, ProcessingSettings, HOLE_DIAMETER_MM, HOLE_EDGE_CLEARANCE_MM,
    OUTLINE_OFFSET_MM, SMOOTHING_MM, TOOL_DIAMETER_MM,
};
use crate::text::same_text;

verus! {

/// An argument: its text where it is valid text, and the bit pattern of the number that
/// the text stands for where it stands for one.
#[derive(Debug, Clone)]
pub struct CliArgument {
    pub text: Option<String>,
    pub number: Option<u64>,
}

/// An argument by its value.
pub struct SpecArgument {
    pub text: Option<Seq<char>>,
    pub number: Option<u64>,
}

impl CliArgument {
    pub open spec fn view(&self) -> SpecArgument {
        SpecArgument {
            text: match self.text {
                Some(text) => Some(text@),
                None => None,
            },
            number: self.number,
        }
    }
}

/// The arguments by their values.
pub open spec fn arguments_of(arguments: Seq<CliArgument>) -> Seq<SpecArgument> {
    arguments.map_values(|argument: CliArgument| argument.view())
}

/// A measurement on the command line.
#[derive(Debug, Clone, Copy, PartialEq, Eq, Structural)]
pub enum CliParameter {
    OutlineOffset,
    HoleDiameter,
    HoleEdgeClearance,
    /// The tool of an outline.
    Tool,
    /// The tool of a whole processing.
    Cutter,
    Smoothing,
}

impl CliParameter {
    pub open spec fn spec_name(self) -> Seq<char> {
        match self {
            CliParameter::OutlineOffset => "巡边外扩"@,
            CliParameter::HoleDiameter => "孔径"@,
            CliParameter::HoleEdgeClearance => "孔边距"@,
            CliParameter::Tool => "道具口径"@,
            CliParameter::Cutter => "刀具口径"@,
            CliParameter::Smoothing => "线条平滑"@,
        }
    }

    /// What the measurement is called in errors.
    pub fn name(self) -> (res: &'static str)
        ensures
            res@ == self.spec_name(),
    {
        match self {
            CliParameter::OutlineOffset => "巡边外扩",
            CliParameter::HoleDiameter => "孔径",
            CliParameter::HoleEdgeClearance => "孔边距",
            CliParameter::Tool => "道具口径",
            CliParameter::Cutter => "刀具口径",
            CliParameter::Smoothing => "线条平滑",
        }
    }
}

/// Why a command line is no command.
#[derive(Debug, Clone, Copy, PartialEq, Eq, Structural)]
pub enum CliError {
    NotText(CliParameter),
    NotNumber(CliParameter),
    Usage,
}

impl CliError {
    /// The text shown for the error.
    pub open spec fn spec_message(self) -> Seq<char> {
        match self {
            CliError::NotText(parameter) => parameter.spec_name() + " 参数不是有效文本"@,
            CliError::NotNumber(parameter) => parameter.spec_name() + " 参数不是有效数字"@,
            CliError::Usage => usage(),
        }
    }

    /// The text shown for the error.
    pub fn message(self) -> (res: String)
        ensures
            res@ == self.spec_message(),
    {
        match self {
            CliError::NotText(parameter) => {
                let mut res = parameter.name().to_owned();
                res.push_str(" 参数不是有效文本");
                res
            },
            CliError::NotNumber(parameter) => {
                let mut res = parameter.name().to_owned();
                res.push_str(" 参数不是有效数字");
                res
            },
            CliError::Usage =>
                "usage: cdr-corel probe | export-selection-svg [output.svg] | export-page-svg [output.svg] | outline-selection <outline-mm> <tool-mm> <smoothing-mm> | add-selection-holes <diameter-mm> <clearance-mm> | merge-selected-holes | trim-transparent-selection <outline-mm> <tool-mm> <smoothing-mm> | process-selection [report.json] | process-selection-settings <outline-mm> <hole-diameter-mm> <hole-edge-clearance-mm> [tool-diameter-mm] [smoothing-mm] [report.json] | verify-selection <output.cdr> <selection-report.json> <verification.json> | write <source.cdr> <output.cdr> <vector-output.json> | verify <source.cdr> <output.cdr> <vector-output.json> <verification.json>".to_owned(),
        }
    }
}

/// The commands and their arguments.
pub open spec fn usage() -> Seq<char> {
    "usage: cdr-corel probe | export-selection-svg [output.svg] | export-page-svg [output.svg] | outline-selection <outline-mm> <tool-mm> <smoothing-mm> | add-selection-holes <diameter-mm> <clearance-mm> | merge-selected-holes | trim-transparent-selection <outline-mm> <tool-mm> <smoothing-mm> | process-selection [report.json] | process-selection-settings <outline-mm> <hole-diameter-mm> <hole-edge-clearance-mm> [tool-diameter-mm] [smoothing-mm] [report.json] | verify-selection <output.cdr> <selection-report.json> <verification.json> | write <source.cdr> <output.cdr> <vector-output.json> | verify <source.cdr> <output.cdr> <vector-output.json> <verification.json>"@
}

/// What a command line asks for. Files are named by the index of their argument.
#[derive(Debug, Clone, Copy, PartialEq, Eq, Structural)]
pub enum CliCommand {
    Probe,
    ExportSvg { output: Option<usize>, selected: bool },
    Process {
        settings: ProcessingSettings,
        operation: SelectionOperation,
        report: Option<usize>,
    },
    Write { source: usize, output: usize, vectors: usize },
    Verify { source: usize, output: usize, vectors: usize, report: usize },
    VerifySelection { output: usize, selection_report: usize, verification_report: usize },
}

// ---------------------------------------------------------------------------
// Measurements
// ---------------------------------------------------------------------------

/// The measurement that an argument gives.
pub open spec fn measurement(argument: SpecArgument, parameter: CliParameter) -> Result<
    u64,
    CliError,
> {
    match (argument.text, argument.number) {
        (None, _) => Err(CliError::NotText(parameter)),
        (Some(_), None) => Err(CliError::NotNumber(parameter)),
        (Some(_), Some(number)) => Ok(number),
    }
}

/// Reads a measurement.
pub fn parse_mm(argument: &CliArgument, parameter: CliParameter) -> (res: Result<u64, CliError>)
    ensures
        res == measurement(argument.view(), parameter),
{
    match (&argument.text, argument.number) {
        (None, _) => Err(CliError::NotText(parameter)),
        (Some(_), None) => Err(CliError::NotNumber(parameter)),
        (Some(_), Some(number)) => Ok(number),
    }
}

/// The settings that three measurements give; the first of them that is wrong is
/// reported.
pub open spec fn settings_of(
    outline_offset: Result<u64, CliError>,
    hole_diameter: Result<u64, CliError>,
    hole_edge_clearance: Result<u64, CliError>,
    tool_diameter_mm: Option<u64>,
    smoothing_mm: Option<u64>,
) -> Result<ProcessingSettings, CliError> {
    match (outline_offset, hole_diameter, hole_edge_clearance) {
        (Err(error), _, _) => Err(error),
        (Ok(_), Err(error), _) => Err(error),
        (Ok(_), Ok(_), Err(error)) => Err(error),
        (Ok(offset), Ok(diameter), Ok(clearance)) => Ok(
            ProcessingSettings {
                outline_offset_mm: offset,
                hole_diameter_mm: diameter,
                hole_edge_clearance_mm: clearance,
                tool_diameter_mm: match tool_diameter_mm {
                    Some(tool) => tool,
                    None => TOOL_DIAMETER_MM,
                },
                smoothing_mm: match smoothing_mm {
                    Some(smoothing) => smoothing,
                    None => SMOOTHING_MM,
                },
            },
        ),
    }
}

/// The settings that three measurements give.
pub fn settings_from_cli(
    outline_offset: Result<u64, CliError>,
    hole_diameter: Result<u64, CliError>,
    hole_edge_clearance: Result<u64, CliError>,
    tool_diameter_mm: Option<u64>,
    smoothing_mm: Option<u64>,
) -> (res: Result<ProcessingSettings, CliError>)
    ensures
        res == settings_of(
            outline_offset,
            hole_diameter,
            hole_edge_clearance,
            tool_diameter_mm,
            smoothing_mm,
        ),
{
    match (outline_offset, hole_diameter, hole_edge_clearance) {
        (Err(error), _, _) => Err(error),
        (Ok(_), Err(error), _) => Err(error),
        (Ok(_), Ok(_), Err(error)) => Err(error),
        (Ok(offset), Ok(diameter), Ok(clearance)) => {
            let tool: u64 = match tool_diameter_mm {
                Some(tool) => tool,
                None => TOOL_DIAMETER_MM,
            };
            let smoothing: u64 = match smoothing_mm {
                Some(smoothing) => smoothing,
                None => SMOOTHING_MM,
            };
            Ok(
                ProcessingSettings {
                    outline_offset_mm: offset,
                    hole_diameter_mm: diameter,
                    hole_edge_clearance_mm: clearance,
                    tool_diameter_mm: tool,
                    smoothing_mm: smoothing,
                },
            )
        },
    }
}

// ---------------------------------------------------------------------------
// Commands
// ---------------------------------------------------------------------------

/// What to process with which settings, or what is wrong with the settings.
pub open spec fn processing(
    settings: Result<ProcessingSettings, CliError>,
    operation: SelectionOperation,
    report: Option<usize>,
) -> Result<CliCommand, CliError> {
    match settings {
        Ok(settings) => Ok(CliCommand::Process { settings, operation, report }),
        Err(error) => Err(error),
    }
}

/// An outline or a trimming: its offset, tool and smoothing. The tool and the smoothing
/// are read first.
pub open spec fn outlining(
    arguments: Seq<SpecArgument>,
    operation: SelectionOperation,
) -> Result<CliCommand, CliError> {
    match (
        measurement(arguments[2], CliParameter::Tool),
        measurement(arguments[3], CliParameter::Smoothing),
    ) {
        (Err(error), _) => Err(error),
        (Ok(_), Err(error)) => Err(error),
        (Ok(tool), Ok(smoothing)) => processing(
            settings_of(
                measurement(arguments[1], CliParameter::OutlineOffset),
                Ok(HOLE_DIAMETER_MM),
                Ok(HOLE_EDGE_CLEARANCE_MM),
                Some(tool),
                Some(smoothing),
            ),
            operation,
            None,
        ),
    }
}

/// A whole processing with an offset, a hole diameter and a clearance.
pub open spec fn whole_processing(
    arguments: Seq<SpecArgument>,
    tool: Option<u64>,
    smoothing: Option<u64>,
    report: Option<usize>,
) -> Result<CliCommand, CliError> {
    processing(
        settings_of(
            measurement(arguments[1], CliParameter::OutlineOffset),
            measurement(arguments[2], CliParameter::HoleDiameter),
            measurement(arguments[3], CliParameter::HoleEdgeClearance),
            tool,
            smoothing,
        ),
        SelectionOperation::OutlineAndHole,
        report,
    )
}

/// A whole processing with a tool and a smoothing too, which are read first.
pub open spec fn full_processing(
    arguments: Seq<SpecArgument>,
    report: Option<usize>,
) -> Result<CliCommand, CliError> {
    match (
        measurement(arguments[4], CliParameter::Cutter),
        measurement(arguments[5], CliParameter::Smoothing),
    ) {
        (Err(error), _) => Err(error),
        (Ok(_), Err(error)) => Err(error),
        (Ok(tool), Ok(smoothing)) => whole_processing(
            arguments,
            Some(tool),
            Some(smoothing),
            report,
        ),
    }
}

/// Whether the first argument is the name of a command, and there are `count` in all.
pub open spec fn is_command(arguments: Seq<SpecArgument>, name: Seq<char>, count: int) -> bool {
    arguments.len() == count && count >= 1 && arguments[0].text == Some(name)
}

/// What a command line asks for.
pub open spec fn command_of(arguments: Seq<SpecArgument>) -> Result<CliCommand, CliError> {
    if is_command(arguments, "probe"@, 1) {
        Ok(CliCommand::Probe)
    } else if is_command(arguments, "export-selection-svg"@, 1) {
        Ok(CliCommand::ExportSvg { output: None, selected: true })
    } else if is_command(arguments, "export-selection-svg"@, 2) {
        Ok(CliCommand::ExportSvg { output: Some(1), selected: true })
    } else if is_command(arguments, "export-page-svg"@, 1) {
        Ok(CliCommand::ExportSvg { output: None, selected: false })
    } else if is_command(arguments, "export-page-svg"@, 2) {
        Ok(CliCommand::ExportSvg { output: Some(1), selected: false })
    } else if is_command(arguments, "process-selection"@, 1) {
        processing(Ok(default_settings()), SelectionOperation::OutlineAndHole, None)
    } else if is_command(arguments, "process-selection"@, 2) {
        processing(Ok(default_settings()), SelectionOperation::OutlineAndHole, Some(1))
    } else if is_command(arguments, "outline-selection"@, 4) {
        outlining(arguments, SelectionOperation::Outline)
    } else if is_command(arguments, "add-selection-holes"@, 3) {
        processing(
            settings_of(
                Ok(OUTLINE_OFFSET_MM),
                measurement(arguments[1], CliParameter::HoleDiameter),
                measurement(arguments[2], CliParameter::HoleEdgeClearance),
                None,
                None,
            ),
            SelectionOperation::AddHoles,
            None,
        )
    } else if is_command(arguments, "merge-selected-holes"@, 1) || is_command(
        arguments,
        "merge-selection-holes"@,
        1,
    ) {
        processing(Ok(default_settings()), SelectionOperation::MergeHoles, None)
    } else if is_command(arguments, "trim-transparent-selection"@, 4) {
        outlining(arguments, SelectionOperation::TrimTransparent)
    } else if is_command(arguments, "process-selection-settings"@, 4) {
        whole_processing(arguments, None, None, None)
    } else if is_command(arguments, "process-selection-settings"@, 5) {
        match measurement(arguments[4], CliParameter::Smoothing) {
            Ok(smoothing) => whole_processing(arguments, None, Some(smoothing), None),
            Err(_) => whole_processing(arguments, None, None, Some(4)),
        }
    } else if is_command(arguments, "process-selection-settings"@, 6) {
        full_processing(arguments, None)
    } else if is_command(arguments, "process-selection-settings"@, 7) {
        full_processing(arguments, Some(6))
    } else if is_command(arguments, "write"@, 4) {
        Ok(CliCommand::Write { source: 1, output: 2, vectors: 3 })
    } else if is_command(arguments, "verify"@, 5) {
        Ok(CliCommand::Verify { source: 1, output: 2, vectors: 3, report: 4 })
    } else if is_command(arguments, "verify-selection"@, 4) {
        Ok(
            CliCommand::VerifySelection {
                output: 1,
                selection_report: 2,
                verification_report: 3,
            },
        )
    } else {
        Err(CliError::Usage)
    }
}

fn has_command(arguments: &Vec<CliArgument>, name: &str, count: usize) -> (res: bool)
    ensures
        res == is_command(arguments_of(arguments@), name@, count as int),
{
    if count == 0 || arguments.len() != count {
        return false;
    }
    assert(arguments_of(arguments@)[0] == arguments@[0].view());
    match &arguments[0].text {
        Some(text) => same_text(text.as_str(), name),
        None => false,
    }
}

fn process(
    settings: Result<ProcessingSettings, CliError>,
    operation: SelectionOperation,
    report: Option<usize>,
) -> (res: Result<CliCommand, CliError>)
    ensures
        res == processing(settings, operation, report),
{
    match settings {
        Ok(settings) => Ok(CliCommand::Process { settings, operation, report }),
        Err(error) => Err(error),
    }
}

fn read_outlining(arguments: &Vec<CliArgument>, operation: SelectionOperation) -> (res: Result<
    CliCommand,
    CliError,
>)
    requires
        arguments@.len() == 4,
    ensures
        res == outlining(arguments_of(arguments@), operation),
{
    match (
        parse_mm(&arguments[2], CliParameter::Tool),
        parse_mm(&arguments[3], CliParameter::Smoothing),
    ) {
        (Err(error), _) => Err(error),
        (Ok(_), Err(error)) => Err(error),
        (Ok(tool), Ok(smoothing)) => {
            let settings = settings_from_cli(
                parse_mm(&arguments[1], CliParameter::OutlineOffset),
                Ok(HOLE_DIAMETER_MM),
                Ok(HOLE_EDGE_CLEARANCE_MM),
                Some(tool),
                Some(smoothing),
            );
            process(settings, operation, None)
        },
    }
}

fn read_whole_processing(
    arguments: &Vec<CliArgument>,
    tool: Option<u64>,
    smoothing: Option<u64>,
    report: Option<usize>,
) -> (res: Result<CliCommand, CliError>)
    requires
        arguments@.len() >= 4,
    ensures
        res == whole_processing(arguments_of(arguments@), tool, smoothing, report),
{
    let settings = settings_from_cli(
        parse_mm(&arguments[1], CliParameter::OutlineOffset),
        parse_mm(&arguments[2], CliParameter::HoleDiameter),
        parse_mm(&arguments[3], CliParameter::HoleEdgeClearance),
        tool,
        smoothing,
    );
    match settings {
        Ok(settings) => Ok(process_active_selection(settings, report)),
        Err(error) => Err(error),
    }
}

fn read_full_processing(arguments: &Vec<CliArgument>, report: Option<usize>) -> (res: Result<
    CliCommand,
    CliError,
>)
    requires
        arguments@.len() >= 6,
    ensures
        res == full_processing(arguments_of(arguments@), report),
{
    match (
        parse_mm(&arguments[4], CliParameter::Cutter),
        parse_mm(&arguments[5], CliParameter::Smoothing),
    ) {
        (Err(error), _) => Err(error),
        (Ok(_), Err(error)) => Err(error),
        (Ok(tool), Ok(smoothing)) => read_whole_processing(
            arguments,
            Some(tool),
            Some(smoothing),
            report,
        ),
    }
}

/// Reads what a command line asks for.
pub fn run_cli(arguments: &Vec<CliArgument>) -> (res: Result<CliCommand, CliError>)
    ensures
        res == command_of(arguments_of(arguments@)),
{
    if has_command(arguments, "probe", 1) {
        Ok(CliCommand::Probe)
    } else if has_command(arguments, "export-selection-svg", 1) {
        Ok(CliCommand::ExportSvg { output: None, selected: true })
    } else if has_command(arguments, "export-selection-svg", 2) {
        Ok(CliCommand::ExportSvg { output: Some(1), selected: true })
    } else if has_command(arguments, "export-page-svg", 1) {
        Ok(CliCommand::ExportSvg { output: None, selected: false })
    } else if has_command(arguments, "export-page-svg", 2) {
        Ok(CliCommand::ExportSvg { output: Some(1), selected: false })
    } else if has_command(arguments, "process-selection", 1) {
        Ok(process_active_selection(ProcessingSettings::default(), None))
    } else if has_command(arguments, "process-selection", 2) {
        Ok(process_active_selection(ProcessingSettings::default(), Some(1)))
    } else if has_command(arguments, "outline-selection", 4) {
        read_outlining(arguments, SelectionOperation::Outline)
    } else if has_command(arguments, "add-selection-holes", 3) {
        let settings = settings_from_cli(
            Ok(OUTLINE_OFFSET_MM),
            parse_mm(&arguments[1], CliParameter::HoleDiameter),
            parse_mm(&arguments[2], CliParameter::HoleEdgeClearance),
            None,
            None,
        );
        process(settings, SelectionOperation::AddHoles, None)
    } else if has_command(arguments, "merge-selected-holes", 1) || has_command(
        arguments,
        "merge-selection-holes",
        1,
    ) {
        process(Ok(ProcessingSettings::default()), SelectionOperation::MergeHoles, None)
    } else if has_command(arguments, "trim-transparent-selection", 4) {
        read_outlining(arguments, SelectionOperation::TrimTransparent)
    } else if has_command(arguments, "process-selection-settings", 4) {
        read_whole_processing(arguments, None, None, None)
    } else if has_command(arguments, "process-selection-settings", 5) {
        match parse_mm(&arguments[4], CliParameter::Smoothing) {
            Ok(smoothing) => read_whole_processing(arguments, None, Some(smoothing), None),
            Err(_) => read_whole_processing(arguments, None, None, Some(4)),
        }
    } else if has_command(arguments, "process-selection-settings", 6) {
        read_full_processing(arguments, None)
    } else if has_command(arguments, "process-selection-settings", 7) {
        read_full_processing(arguments, Some(6))
    } else if has_command(arguments, "write", 4) {
        Ok(CliCommand::Write { source: 1, output: 2, vectors: 3 })
    } else if has_command(arguments, "verify", 5) {
        Ok(CliCommand::Verify { source: 1, output: 2, vectors: 3, report: 4 })
    } else if has_command(arguments, "verify-selection", 4) {
        Ok(
            CliCommand::VerifySelection {
                output: 1,
                selection_report: 2,
                verification_report: 3,
            },
        )
    } else {
        Err(CliError::Usage)
    }
}

/// The command for processing the active selection with these settings: every bitmap in
/// it gets its outline and its hole.
pub fn process_active_selection(settings: ProcessingSettings, report: Option<usize>) -> (res:
    CliCommand)
    ensures
        res == (CliCommand::Process {
            settings,
            operation: SelectionOperation::OutlineAndHole,
            report,
        }),
{
    CliCommand::Process { settings, operation: SelectionOperation::OutlineAndHole, report }
}

/// The files that a command names are among its arguments.
pub proof fn law_files_are_arguments(arguments: Seq<SpecArgument>)
    ensures
        match command_of(arguments) {
            Ok(CliCommand::ExportSvg { output: Some(output), .. }) => output < arguments.len(),
            Ok(CliCommand::Process { report: Some(report), .. }) => report < arguments.len(),
            Ok(CliCommand::Write { source, output, vectors }) => source < arguments.len()
                && output < arguments.len() && vectors < arguments.len(),
            Ok(CliCommand::Verify { source, output, vectors, report }) => source
                < arguments.len() && output < arguments.len() && vectors < arguments.len()
                && report < arguments.len(),
            Ok(
                CliCommand::VerifySelection { output, selection_report, verification_report },
            ) => output < arguments.len() && selection_report < arguments.len()
                && verification_report < arguments.len(),
            _ => true,
        },
{
}

/// Whether an argument is the number `number`.
pub open spec fn is_number(argument: SpecArgument, number: u64) -> bool {
    argument.text is Some && argument.number == Some(number)
}

/// The measurements of a whole processing are, in this order, the offset of the outline, the
/// diameter of the hole and its clearance, then the tool and the smoothing. Where there are no
/// more than four, the fourth is the smoothing, or else a report. What is not given is as usual.
pub proof fn law_measurements_are_read_in_their_order(
    arguments: Seq<SpecArgument>,
    a: u64,
    b: u64,
    c: u64,
    d: u64,
    e: u64,
)
    requires
        arguments.len() >= 4,
        arguments[0].text == Some("process-selection-settings"@),
        is_number(arguments[1], a),
        is_number(arguments[2], b),
        is_number(arguments[3], c),
        arguments.len() >= 6 ==> is_number(arguments[4], d) && is_number(arguments[5], e),
    ensures
        ({
            let asked = |tool: u64, smoothing: u64, report: Option<usize>|
                Ok::<CliCommand, CliError>(
                    CliCommand::Process {
                        settings: ProcessingSettings {
                            outline_offset_mm: a,
                            hole_diameter_mm: b,
                            hole_edge_clearance_mm: c,
                            tool_diameter_mm: tool,
                            smoothing_mm: smoothing,
                        },
                        operation: SelectionOperation::OutlineAndHole,
                        report,
                    },
                );
            let command = command_of(arguments);
            &&& arguments.len() == 4 ==> command == asked(
                0x4000_0000_0000_0000,
                0x3f94_7ae1_47ae_147b,
                None,
            )
            &&& arguments.len() == 5 && is_number(arguments[4], d) ==> command == asked(
                0x4000_0000_0000_0000,
                d,
                None,
            )
            &&& arguments.len() == 5 && arguments[4].number is None ==> command == asked(
                0x4000_0000_0000_0000,
                0x3f94_7ae1_47ae_147b,
                Some(4),
            )
            &&& arguments.len() == 6 ==> command == asked(d, e, None)
            &&& arguments.len() == 7 ==> command == asked(d, e, Some(6))
            &&& arguments.len() > 7 ==> command == Err::<CliCommand, _>(CliError::Usage)
        }),
{
    reveal_strlit("process-selection-settings");
    reveal_strlit("outline-selection");
    reveal_strlit("trim-transparent-selection");
    let name = "process-selection-settings"@;
    assert(name.len() == 26 && name[0] == 'p');
    assert("outline-selection"@.len() == 17);
    assert("trim-transparent-selection"@[0] == 't');
}

/// An outline and a trimming are asked for with an offset, a tool and a smoothing, holes with a
/// diameter and a clearance; each measurement goes where it belongs.
pub proof fn law_outlines_and_holes_are_asked_for(
    arguments: Seq<SpecArgument>,
    a: u64,
    b: u64,
    c: u64,
)
    requires
        arguments.len() >= 3,
        is_number(arguments[1], a),
        is_number(arguments[2], b),
        arguments.len() == 4 ==> is_number(arguments[3], c),
    ensures
        ({
            let usual = default_settings();
            let outlined = ProcessingSettings {
                outline_offset_mm: a,
                tool_diameter_mm: b,
                smoothing_mm: c,
                ..usual
            };
            let holed = ProcessingSettings {
                hole_diameter_mm: a,
                hole_edge_clearance_mm: b,
                ..usual
            };
            let asked = |settings: ProcessingSettings, operation: SelectionOperation|
                Ok::<CliCommand, CliError>(
                    CliCommand::Process { settings, operation, report: None },
                );
            &&& arguments.len() == 4 && arguments[0].text == Some("outline-selection"@)
                ==> command_of(arguments) == asked(outlined, SelectionOperation::Outline)
            &&& arguments.len() == 4 && arguments[0].text == Some("trim-transparent-selection"@)
                ==> command_of(arguments) == asked(outlined, SelectionOperation::TrimTransparent)
            &&& arguments.len() == 3 && arguments[0].text == Some("add-selection-holes"@)
                ==> command_of(arguments) == asked(holed, SelectionOperation::AddHoles)
        }),
{
    reveal_strlit("outline-selection");
    reveal_strlit("trim-transparent-selection");
    assert("outline-selection"@.len() == 17);
    assert("trim-transparent-selection"@.len() == 26);
}

/// What is merged, written and verified is asked for by its name, and the files are those that
/// follow it, in their order.
pub proof fn law_files_follow_their_command(arguments: Seq<SpecArgument>)
    requires
        arguments.len() >= 1,
    ensures
        arguments.len() == 4 && arguments[0].text == Some("write"@) ==> command_of(arguments)
            == Ok::<_, CliError>(CliCommand::Write { source: 1, output: 2, vectors: 3 }),
        arguments.len() == 5 && arguments[0].text == Some("verify"@) ==> command_of(arguments)
            == Ok::<_, CliError>(
            CliCommand::Verify { source: 1, output: 2, vectors: 3, report: 4 },
        ),
        arguments.len() == 4 && arguments[0].text == Some("verify-selection"@) ==> command_of(
            arguments,
        ) == Ok::<_, CliError>(
            CliCommand::VerifySelection {
                output: 1,
                selection_report: 2,
                verification_report: 3,
            },
        ),
{
    reveal_strlit("write");
    reveal_strlit("verify");
    reveal_strlit("verify-selection");
    reveal_strlit("outline-selection");
    reveal_strlit("trim-transparent-selection");
    reveal_strlit("process-selection-settings");
    assert("write"@.len() == 5 && "verify"@.len() == 6 && "verify-selection"@.len() == 16);
    assert("outline-selection"@.len() == 17 && "trim-transparent-selection"@.len() == 26);
    assert("process-selection-settings"@.len() == 26);
}

/// A measurement that is no text, or no number, is reported by its name; of several, the first
/// that is read.
pub proof fn law_wrong_measurements_are_reported(
    offset: SpecArgument,
    diameter: SpecArgument,
    clearance: SpecArgument,
    tool: Option<u64>,
    smoothing: Option<u64>,
)
    ensures
        ({
            let found = settings_of(
                measurement(offset, CliParameter::OutlineOffset),
                measurement(diameter, CliParameter::HoleDiameter),
                measurement(clearance, CliParameter::HoleEdgeClearance),
                tool,
                smoothing,
            );
            &&& offset.text is None ==> found == Err::<ProcessingSettings, _>(
                CliError::NotText(CliParameter::OutlineOffset),
            )
            &&& offset.text is Some && offset.number is None ==> found == Err::<
                ProcessingSettings,
                _,
            >(CliError::NotNumber(CliParameter::OutlineOffset))
            &&& offset.text is Some && offset.number is Some && diameter.text is Some
                && diameter.number is None ==> found == Err::<ProcessingSettings, _>(
                CliError::NotNumber(CliParameter::HoleDiameter),
            )
            &&& offset.text is Some && offset.number is Some && diameter.text is Some
                && diameter.number is Some && clearance.text is Some && clearance.number is None
                ==> found == Err::<ProcessingSettings, _>(
                CliError::NotNumber(CliParameter::HoleEdgeClearance),
            )
        }),
{
}

} // verus!
