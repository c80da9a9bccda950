use cdr_outline::cli::{
    parse_mm, process_active_selection, run_cli, settings_from_cli, CliArgument, CliCommand,
    CliError, CliParameter,
};
use cdr_outline::names::SelectionOperation;
use cdr_outline::processor::{
    export_argument, export_line, export_path_candidates, export_path_from_summary,
    exported_message, processing_arguments, progress_line, ParameterTexts, Transcript,
};
use cdr_outline::selection::ProcessingSettings;

fn argument(text: &str) -> CliArgument {
    CliArgument {
        text: Some(text.to_owned()),
        number: text.parse::<f64>().ok().map(f64::to_bits),
    }
}

fn command(texts: &[&str]) -> Result<CliCommand, CliError> {
    run_cli(&texts.iter().map(|text| argument(text)).collect())
}

fn settings(offset: f64, diameter: f64, clearance: f64, tool: f64, smooth: f64) -> ProcessingSettings {
    ProcessingSettings {
        outline_offset_mm: offset.to_bits(),
        hole_diameter_mm: diameter.to_bits(),
        hole_edge_clearance_mm: clearance.to_bits(),
        tool_diameter_mm: tool.to_bits(),
        smoothing_mm: smooth.to_bits(),
    }
}

fn process(
    settings: ProcessingSettings,
    operation: SelectionOperation,
    report: Option<usize>,
) -> Result<CliCommand, CliError> {
    Ok(CliCommand::Process { settings, operation, report })
}

#[test]
fn commands_are_read() {
    let merge = SelectionOperation::MergeHoles;
    let whole = SelectionOperation::OutlineAndHole;
    let usual = settings(2.0, 3.5, 2.0, 2.0, 0.02);
    assert_eq!(command(&["probe"]), Ok(CliCommand::Probe));
    assert_eq!(
        command(&["export-selection-svg"]),
        Ok(CliCommand::ExportSvg { output: None, selected: true })
    );
    assert_eq!(
        command(&["export-page-svg", "a.svg"]),
        Ok(CliCommand::ExportSvg { output: Some(1), selected: false })
    );
    assert_eq!(command(&["process-selection"]), process(usual, whole, None));
    assert_eq!(command(&["process-selection", "r.json"]), process(usual, whole, Some(1)));
    assert_eq!(command(&["merge-selected-holes"]), process(usual, merge, None));
    assert_eq!(command(&["merge-selection-holes"]), process(usual, merge, None));
    assert_eq!(
        command(&["outline-selection", "1.5", "3", "0.1"]),
        process(settings(1.5, 3.5, 2.0, 3.0, 0.1), SelectionOperation::Outline, None)
    );
    assert_eq!(
        command(&["trim-transparent-selection", "1.5", "3", "0.1"]),
        process(settings(1.5, 3.5, 2.0, 3.0, 0.1), SelectionOperation::TrimTransparent, None)
    );
    assert_eq!(
        command(&["add-selection-holes", "4", "1"]),
        process(settings(2.0, 4.0, 1.0, 2.0, 0.02), SelectionOperation::AddHoles, None)
    );
    let name = "process-selection-settings";
    assert_eq!(
        command(&[name, "1", "4", "3"]),
        process(settings(1.0, 4.0, 3.0, 2.0, 0.02), whole, None)
    );
    assert_eq!(
        command(&[name, "1", "4", "3", "0.5"]),
        process(settings(1.0, 4.0, 3.0, 2.0, 0.5), whole, None)
    );
    assert_eq!(
        command(&[name, "1", "4", "3", "r.json"]),
        process(settings(1.0, 4.0, 3.0, 2.0, 0.02), whole, Some(4))
    );
    assert_eq!(
        command(&[name, "1", "4", "3", "5", "0.5"]),
        process(settings(1.0, 4.0, 3.0, 5.0, 0.5), whole, None)
    );
    assert_eq!(
        command(&[name, "1", "4", "3", "5", "0.5", "r.json"]),
        process(settings(1.0, 4.0, 3.0, 5.0, 0.5), whole, Some(6))
    );
    assert_eq!(
        command(&["write", "s", "o", "v"]),
        Ok(CliCommand::Write { source: 1, output: 2, vectors: 3 })
    );
    assert_eq!(
        command(&["verify", "s", "o", "v", "r"]),
        Ok(CliCommand::Verify { source: 1, output: 2, vectors: 3, report: 4 })
    );
    assert_eq!(
        command(&["verify-selection", "o", "s", "v"]),
        Ok(CliCommand::VerifySelection {
            output: 1,
            selection_report: 2,
            verification_report: 3
        })
    );
    assert_eq!(Ok(process_active_selection(usual, None)), process(usual, whole, None));
}

#[test]
fn wrong_commands_are_refused() {
    assert_eq!(command(&[]), Err(CliError::Usage));
    assert_eq!(command(&["probe", "x"]), Err(CliError::Usage));
    assert!(CliError::Usage.message().starts_with("usage: cdr-corel probe | "));
    let error = command(&["outline-selection", "x", "y", "z"]).unwrap_err();
    assert_eq!(error, CliError::NotNumber(CliParameter::Tool));
    assert_eq!(error.message(), "道具口径 参数不是有效数字");
    let error = command(&["outline-selection", "x", "1", "z"]).unwrap_err();
    assert_eq!(error.message(), "线条平滑 参数不是有效数字");
    let error = command(&["outline-selection", "x", "1", "1"]).unwrap_err();
    assert_eq!(error.message(), "巡边外扩 参数不是有效数字");
    let error = command(&["add-selection-holes", "x", "y"]).unwrap_err();
    assert_eq!(error.message(), "孔径 参数不是有效数字");
    let error = command(&["add-selection-holes", "1", "y"]).unwrap_err();
    assert_eq!(error.message(), "孔边距 参数不是有效数字");
    let error =
        command(&["process-selection-settings", "1", "1", "1", "x", "y"]).unwrap_err();
    assert_eq!(error.message(), "刀具口径 参数不是有效数字");
    let broken = CliArgument { text: None, number: None };
    let error = parse_mm(&broken, CliParameter::HoleDiameter).unwrap_err();
    assert_eq!(error.message(), "孔径 参数不是有效文本");
    let error = settings_from_cli(Err(CliError::Usage), Ok(1), Err(error), None, None);
    assert_eq!(error, Err(CliError::Usage));
}

#[test]
fn the_processor_understands_the_desktop() {
    let texts = ParameterTexts {
        outline_offset: "1.5".to_owned(),
        hole_diameter: "4".to_owned(),
        hole_edge_clearance: "1".to_owned(),
        tool_diameter: "3".to_owned(),
        smoothing: "0.1".to_owned(),
    };
    for (operation, expected) in [
        (SelectionOperation::Outline, settings(1.5, 3.5, 2.0, 3.0, 0.1)),
        (SelectionOperation::AddHoles, settings(2.0, 4.0, 1.0, 2.0, 0.02)),
        (SelectionOperation::MergeHoles, settings(2.0, 3.5, 2.0, 2.0, 0.02)),
        (SelectionOperation::TrimTransparent, settings(1.5, 3.5, 2.0, 3.0, 0.1)),
        (SelectionOperation::OutlineAndHole, settings(1.5, 4.0, 1.0, 3.0, 0.1)),
    ] {
        let arguments = processing_arguments(operation, texts.clone());
        let arguments: Vec<&str> = arguments.iter().map(String::as_str).collect();
        assert_eq!(command(&arguments), process(expected, operation, None));
    }
    for selected in [true, false] {
        assert_eq!(
            command(&[export_argument(selected)]),
            Ok(CliCommand::ExportSvg { output: None, selected })
        );
    }
}

#[test]
fn progress_is_read_back() {
    let mut transcript = Transcript::new();
    let progress = transcript.take(&progress_line("0.500", "读取\t第 1 张")).unwrap();
    assert_eq!(progress.value, "0.500");
    assert_eq!(progress.stage, "读取\t第 1 张");
    assert!(transcript.take("__CDR_PROGRESS__\tbroken").is_none());
    assert!(transcript.take("   ").is_none());
    assert!(transcript.take("first").is_none());
    assert!(transcript.take("second ").is_none());
    assert_eq!(transcript.summary, "first\nsecond \n");
    assert_eq!(transcript.finish(true, Some(0), "ignored").unwrap(), "first\nsecond");
    assert_eq!(
        transcript.finish(false, Some(-1), " bad \n").unwrap_err(),
        "处理失败（退出码 Some(-1)）：bad"
    );
    assert_eq!(
        transcript.finish(false, None, " \n").unwrap_err(),
        "处理失败（退出码 None）：first\nsecond"
    );
}

#[test]
fn an_exported_path_is_read_back() {
    let path = "C:\\图 片\\a.svg";
    let mut transcript = Transcript::new();
    assert!(transcript.take(&export_line(path)).is_none());
    assert!(transcript.take(&exported_message(path)).is_none());
    let summary = transcript.finish(true, Some(0), "").unwrap();
    assert_eq!(summary, format!("__CDR_EXPORT__\t{path}\nSVG 导出完成：{path}"));
    assert_eq!(export_path_candidates(&summary), vec![path.to_owned()]);
    assert_eq!(export_path_from_summary(&summary, &[true]).unwrap(), path);
    assert!(export_path_from_summary(&summary, &[false]).is_none());
    let two = "__CDR_EXPORT__\tfirst\r\nother\n__CDR_EXPORT__\t second ";
    assert_eq!(export_path_from_summary(two, &[false, true]).unwrap(), "second");
}
