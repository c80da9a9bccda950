use cdr_outline::first_met::FirstMet;
use cdr_outline::names::{
    classify_merge_candidate, default_page_index, find_unique_layer, generated_shape_name,
    is_hole_name, is_merge_part, is_supported_shape_name, replaced_names, unique_layer_name,
    LayerError, MergeCandidate, SelectionOperation,
};
use cdr_outline::process::{ProcessAction, ProcessEvent, ProcessFault, Processing};
use cdr_outline::selection::{
    classify_source, merge_outcome, search_shape, skipped_summary, source_id, summary,
    validate_selected_bitmap_transform, BitmapTransform, ProcessingSettings, SearchStep,
    SelectionError, SelectionRun, SourceStep,
};
use cdr_outline::transaction::{
    write_steps, Transaction, TransactionAction, WriteStep,
};

fn upright() -> BitmapTransform {
    transform(0.0, 0.0, 1.0, 1.0)
}

fn transform(angle: f64, skew: f64, horizontal: f64, vertical: f64) -> BitmapTransform {
    BitmapTransform {
        angle: angle.to_bits(),
        skew: skew.to_bits(),
        horizontal_scale: horizontal.to_bits(),
        vertical_scale: vertical.to_bits(),
    }
}

fn exported(has_transparent_edge: bool) -> ProcessEvent {
    ProcessEvent::Exported {
        expected_width: 4,
        expected_height: 3,
        width: 4,
        height: 3,
        has_transparent_edge,
    }
}

#[test]
fn operations_have_their_layers() {
    let all = [
        (SelectionOperation::Outline, "RUST_OUTLINE", "巡边", "CDR_RUST_OUTLINE_-7"),
        (SelectionOperation::AddHoles, "RUST_HOLES", "加孔", "CDR_RUST_HOLE_-7"),
        (SelectionOperation::MergeHoles, "RUST_MERGED", "合并孔位", "CDR_RUST_MERGED_-7"),
        (
            SelectionOperation::TrimTransparent,
            "RUST_TRIMMED_OUTLINE",
            "去透明边并缩放",
            "CDR_RUST_TRIMMED_OUTLINE_-7",
        ),
        (SelectionOperation::OutlineAndHole, "RUST_OUTPUT", "巡边与孔位", "CDR_RUST_MERGED_-7"),
    ];
    for (operation, layer, prefix, name) in all {
        assert_eq!(operation.layer_name(), layer);
        assert_eq!(operation.progress_prefix(), prefix);
        assert_eq!(generated_shape_name(operation, -7), name);
        assert!(is_supported_shape_name(name));
        assert!(replaced_names(operation, -7).contains(&name.to_string()));
    }
    for name in ["", "CDR_RUST_OUTLINE_", "CDR_RUST_OTHER_1", "CDR_RUST_HOLE_1x", "xbxb"] {
        assert!(!is_supported_shape_name(name));
    }
    assert_eq!(default_page_index(), 1);
}

#[test]
fn merge_candidates_are_told_apart() {
    assert!(is_hole_name("CDR_RUST_HOLE_1") && !is_hole_name("CDR_RUST_OUTLINE_1"));
    assert!(is_merge_part(3, "CDR_RUST_MERGED_1") && is_merge_part(3, "CDR_RUST_OUTLINE_1"));
    assert!(!is_merge_part(5, "CDR_RUST_OUTLINE_1") && !is_merge_part(3, "CDR_RUST_HOLE_1"));
    assert_eq!(classify_merge_candidate(3, "any"), MergeCandidate::Curve);
    assert_eq!(classify_merge_candidate(7, "CDR_RUST_OUTLINE_1"), MergeCandidate::Parts);
    assert_eq!(classify_merge_candidate(7, "any"), MergeCandidate::Ignore);
    assert_eq!(classify_merge_candidate(5, "any"), MergeCandidate::Ignore);
}

fn texts(names: &[&str]) -> Vec<String> {
    names.iter().map(|name| name.to_string()).collect()
}

#[test]
fn layers_are_named_and_found() {
    assert_eq!(unique_layer_name(&texts(&["A"]), "B").unwrap(), "B");
    assert_eq!(unique_layer_name(&texts(&["B", "B 2"]), "B").unwrap(), "B 3");
    assert_eq!(find_unique_layer(&texts(&["A", "B"]), "B"), Ok(1));
    let error = find_unique_layer(&texts(&["A", "A"]), "A").unwrap_err();
    assert_eq!(error, LayerError::Ambiguous);
    assert_eq!(error.message("A"), "存在多个名为 A 的图层");
    let error = find_unique_layer(&texts(&["A"]), "B").unwrap_err();
    assert_eq!(error.message("B"), "未找到图层 B");
}

#[test]
fn sources_are_classified() {
    let holes = SelectionOperation::AddHoles;
    assert_eq!(classify_source(holes, 5, ""), SourceStep::Itself);
    assert_eq!(classify_source(holes, 3, "CDR_RUST_OUTLINE_9"), SourceStep::BitmapOf(9));
    assert_eq!(classify_source(holes, 3, "other"), SourceStep::Ignore);
    let outline = SelectionOperation::Outline;
    assert_eq!(classify_source(outline, 3, "CDR_RUST_OUTLINE_9"), SourceStep::Ignore);
    assert_eq!(search_shape(5, 9, 9), SearchStep::Found);
    assert_eq!(search_shape(5, 8, 9), SearchStep::Skip);
    assert_eq!(search_shape(7, 9, 9), SearchStep::Descend);
    let mut met = FirstMet::new();
    assert!(met.insert(4) && met.insert(2) && !met.insert(4));
    assert_eq!((met.len(), met.get(0), met.get(1)), (2, 4, 2));
    assert_eq!(source_id(3, -11), "selection.3.id--11");
}

#[test]
fn transformed_bitmaps_are_refused() {
    let check = |transform| validate_selected_bitmap_transform(transform, 2);
    assert_eq!(check(upright()), Ok(()));
    assert_eq!(check(transform(1.0e-6, -1.0e-6, 0.5, 2.0)), Ok(()));
    assert_eq!(check(transform(0.1, 0.0, 1.0, 1.0)), Err(SelectionError::Rotated { index: 2 }));
    assert_eq!(check(transform(0.0, -0.1, 1.0, 1.0)), Err(SelectionError::Rotated { index: 2 }));
    let error = check(transform(0.0, 0.0, -1.0, 1.0)).unwrap_err();
    assert_eq!(error.message(), "选择中的第 2 张位图存在镜像变换；当前版本暂不处理镜像");
}

#[test]
fn a_selection_is_processed() {
    let settings = ProcessingSettings::default();
    let mut processing = Processing::start(settings, SelectionOperation::Outline).ok().unwrap();
    assert_eq!(processing.action, ProcessAction::CountSelection);
    processing.next(ProcessEvent::Selected(4));
    for source in [Some(7), None, Some(9), Some(7)] {
        assert!(matches!(processing.action, ProcessAction::ReadSource(_)));
        processing.next(ProcessEvent::Source(source));
    }
    assert_eq!(processing.action, ProcessAction::ReadBitmap(0));
    processing.next(ProcessEvent::Placed { transform: upright(), cropped: false });
    assert_eq!(processing.action, ProcessAction::ExportBitmap(0));
    processing.next(exported(false));
    assert_eq!(processing.action, ProcessAction::ReadBitmap(1));
    processing.next(ProcessEvent::Placed { transform: upright(), cropped: false });
    processing.next(exported(true));
    assert_eq!(processing.action, ProcessAction::Trace(1));
    processing.next(ProcessEvent::Succeeded);
    assert_eq!(processing.action, ProcessAction::NameLayer);
    processing.next(ProcessEvent::Succeeded);
    assert_eq!(processing.action, ProcessAction::Write);
    processing.next(ProcessEvent::Succeeded);
    assert_eq!(processing.action, ProcessAction::Done);
    assert_eq!(processing.run.processed_count(), 1);
    assert_eq!(processing.run.processed_id(0), 9);
    assert_eq!(processing.run.name(0), "CDR_RUST_OUTLINE_9");
    assert_eq!(processing.run.path(0), "selection.2.id-9");
    let outcome = processing.run.outcome("doc".to_owned(), 4, "RUST_OUTLINE".to_owned());
    assert_eq!(outcome.skipped_no_alpha, vec!["selection.1.id-7".to_owned()]);
    assert_eq!(
        summary(&outcome),
        "巡边完成：已处理 1/4 张位图，输出图层 RUST_OUTLINE；文档未自动保存"
    );
    assert_eq!(
        skipped_summary(&outcome.skipped_no_alpha).unwrap(),
        "跳过 1 张无透明边缘位图: selection.1.id-7"
    );
}

fn refusal(operation: SelectionOperation, diameter: f64, events: &[ProcessEvent]) -> SelectionError {
    let mut settings = ProcessingSettings::default();
    settings.hole_diameter_mm = diameter.to_bits();
    let mut processing = Processing::start(settings, operation).ok().unwrap();
    for event in events {
        processing.next(*event);
    }
    match processing.action {
        ProcessAction::Failed(ProcessFault::Refused(error)) => error,
        other => panic!("not refused: {other:?}"),
    }
}

#[test]
fn bitmaps_get_their_outline_and_their_hole() {
    let mut settings = ProcessingSettings::default();
    settings.hole_diameter_mm = 0.0f64.to_bits();
    for settings in [ProcessingSettings::default(), settings] {
        let whole = SelectionOperation::OutlineAndHole;
        let mut processing = Processing::start(settings, whole).ok().unwrap();
        processing.next(ProcessEvent::Selected(3));
        for source in [Some(5), None, Some(6)] {
            processing.next(ProcessEvent::Source(source));
        }
        let placed = ProcessEvent::Placed { transform: upright(), cropped: false };
        processing.next(placed);
        processing.next(exported(true));
        assert_eq!(processing.action, ProcessAction::Trace(0));
        processing.next(ProcessEvent::Succeeded);
        assert_eq!(processing.action, ProcessAction::PlaceHole(0));
        processing.next(ProcessEvent::Succeeded);
        processing.next(placed);
        processing.next(exported(false));
        assert_eq!(processing.action, ProcessAction::NameLayer);
        let names = vec!["RUST_OUTPUT".to_owned(), "RUST_OUTPUT 3".to_owned()];
        let layer = unique_layer_name(&names, whole.layer_name()).unwrap();
        assert_eq!(layer, "RUST_OUTPUT 2");
        processing.next(ProcessEvent::Succeeded);
        assert_eq!(processing.action, ProcessAction::Write);
        assert_eq!(processing.run.name(0), "CDR_RUST_MERGED_5");
        let outcome = processing.run.outcome("doc".to_owned(), 3, layer);
        assert_eq!(outcome.processed_count, 1);
        assert_eq!(
            summary(&outcome),
            "巡边与孔位完成：已处理 1/3 张位图，输出图层 RUST_OUTPUT 2；文档未自动保存"
        );
    }
}

#[test]
fn selections_are_refused_for_what_is_wrong() {
    let outline = SelectionOperation::Outline;
    let holes = SelectionOperation::AddHoles;
    let one = [ProcessEvent::Selected(1), ProcessEvent::Source(Some(5))];
    let placed = ProcessEvent::Placed { transform: upright(), cropped: false };
    let error = refusal(outline, 3.0, &[ProcessEvent::Selected(0)]);
    assert_eq!(error.message(), "当前没有选择对象；请先选择要处理的内容");
    let none = [ProcessEvent::Selected(1), ProcessEvent::Source(None)];
    assert_eq!(refusal(outline, 3.0, &none), SelectionError::NoBitmap);
    assert_eq!(refusal(holes, 3.0, &none), SelectionError::NoHoleSource);
    let missing = [ProcessEvent::Selected(1), ProcessEvent::MissingSource(6)];
    let error = refusal(holes, 3.0, &missing);
    assert_eq!(
        error.message(),
        "找不到巡边曲线对应的原始位图（StaticID 6）；请保留原始位图后再加孔"
    );
    let cropped = ProcessEvent::Placed { transform: upright(), cropped: true };
    let error = refusal(outline, 3.0, &[one[0], one[1], cropped]);
    assert_eq!(error.message(), "选择中的第 1 张位图已裁剪；当前版本暂不处理裁剪位图");
    let wrong = ProcessEvent::Exported {
        expected_width: 4,
        expected_height: 3,
        width: 4,
        height: 2,
        has_transparent_edge: true,
    };
    let error = refusal(outline, 3.0, &[one[0], one[1], placed, wrong]);
    assert_eq!(error.message(), "selection.1.id-5 导出尺寸异常：预期 4x3，实际 4x2");
    let error = refusal(outline, 3.0, &[one[0], one[1], placed, exported(false)]);
    assert_eq!(error, SelectionError::NothingToDo);
    let done = ProcessEvent::Succeeded;
    let error = refusal(holes, 0.0, &[one[0], one[1], placed, exported(true), done]);
    assert_eq!(error.message(), "孔径为 0 mm，未生成孔位");
    let error =
        refusal(holes, 3.0, &[one[0], one[1], placed, exported(true), done, done, ProcessEvent::NoName]);
    assert_eq!(error.message(), "无法为输出图层生成唯一名称");
    let mut settings = ProcessingSettings::default();
    settings.outline_offset_mm = 0.0f64.to_bits();
    let error = Processing::start(settings, outline).err().unwrap();
    assert_eq!(error.message(), "巡边和孔边距必须大于 0；孔径和平滑值必须大于或等于 0");
    let mut merging = Processing::start(settings, SelectionOperation::MergeHoles).ok().unwrap();
    merging.next(ProcessEvent::Selected(2));
    assert_eq!(merging.action, ProcessAction::Merge);
    merging.next(ProcessEvent::Succeeded);
    assert_eq!(merging.action, ProcessAction::Done);
}

#[test]
fn a_merge_is_summed_up() {
    let outcome = merge_outcome("doc".to_owned(), 5, 2, 1);
    assert_eq!(
        summary(&outcome),
        "合并孔位完成：已融合 2 组曲线，选择对象 5 个；未接触的孔 1 个保持独立，文档未自动保存"
    );
    assert!(skipped_summary(&outcome.skipped_no_alpha).is_none());
}

#[test]
fn trimmed_bitmaps_are_renamed() {
    let mut run = SelectionRun::new(SelectionOperation::TrimTransparent);
    assert!(run.take(1, 5, true));
    assert!(run.check().is_ok());
    assert!(run.rename_trimmed(5, 50));
    assert_eq!(run.name(0), "CDR_RUST_TRIMMED_OUTLINE_50");
    assert!(!run.rename_trimmed(6, 60));
}

#[test]
fn changes_are_made_in_order() {
    assert_eq!(
        write_steps(SelectionOperation::TrimTransparent, 1, true),
        vec![
            WriteStep::RemoveGenerated(0),
            WriteStep::CreateLayer,
            WriteStep::Import(0),
            WriteStep::WriteShapes,
            WriteStep::VerifyShapes,
            WriteStep::Group(0),
            WriteStep::SelectGroup(0),
            WriteStep::WriteReport,
        ]
    );
    assert_eq!(write_steps(SelectionOperation::Outline, 2, false).len(), 5);
}

fn follow(steps: usize, failing: Option<TransactionAction>) -> Vec<TransactionAction> {
    let mut transaction = Transaction::start(steps, true, true);
    let mut done = vec![transaction.action];
    while !matches!(transaction.action, TransactionAction::Done | TransactionAction::Failed) {
        transaction = transaction.next(failing != Some(transaction.action));
        done.push(transaction.action);
    }
    done
}

#[test]
fn a_transaction_is_undone_when_it_fails() {
    assert_eq!(
        follow(2, None),
        vec![
            TransactionAction::Begin,
            TransactionAction::Step(0),
            TransactionAction::Step(1),
            TransactionAction::Commit,
            TransactionAction::Reselect,
            TransactionAction::Done,
        ]
    );
    assert_eq!(
        follow(2, Some(TransactionAction::Step(1)))[3..],
        [
            TransactionAction::Abort,
            TransactionAction::Undo,
            TransactionAction::ReselectUndone,
            TransactionAction::Failed,
        ]
    );
    assert_eq!(
        follow(1, Some(TransactionAction::Begin)),
        vec![TransactionAction::Begin, TransactionAction::Failed]
    );
}
