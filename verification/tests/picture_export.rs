use cdr_outline::picture_export::{PictureAction, PictureExport, PictureFault};

/// The actions of an export in which one of them fails.
fn follow(clipped: bool, failing: Option<PictureAction>) -> Vec<PictureAction> {
    let mut export = PictureExport::start(clipped);
    let mut actions = vec![export.action];
    while !matches!(export.action, PictureAction::Done | PictureAction::Failed(_)) {
        export = export.next(Some(export.action) != failing);
        actions.push(export.action);
    }
    actions
}

#[test]
fn a_clipped_bitmap_is_exported_as_a_copy() {
    assert_eq!(
        follow(true, None),
        vec![
            PictureAction::Duplicate,
            PictureAction::MoveCopy,
            PictureAction::CompareCopy,
            PictureAction::Select,
            PictureAction::Export,
            PictureAction::DeleteCopy,
            PictureAction::Reselect,
            PictureAction::LookForFile,
            PictureAction::Done,
        ]
    );
    assert_eq!(
        follow(false, None),
        vec![
            PictureAction::Select,
            PictureAction::Export,
            PictureAction::Reselect,
            PictureAction::LookForFile,
            PictureAction::Done,
        ]
    );
}

#[test]
fn a_copy_is_deleted_whatever_fails() {
    for failing in [
        PictureAction::MoveCopy,
        PictureAction::CompareCopy,
        PictureAction::Select,
        PictureAction::Export,
    ] {
        let actions = follow(true, Some(failing));
        let end = actions.len();
        assert_eq!(actions[end - 3..end - 1], [PictureAction::DeleteCopy, PictureAction::Reselect]);
        let fault = if failing == PictureAction::CompareCopy {
            PictureFault::CopyChanged
        } else {
            PictureFault::Outside
        };
        assert_eq!(actions[end - 1], PictureAction::Failed(fault));
    }
    let actions = follow(true, Some(PictureAction::Duplicate));
    let outside = PictureAction::Failed(PictureFault::Outside);
    assert_eq!(actions, vec![PictureAction::Duplicate, PictureAction::Reselect, outside]);
    assert_eq!(follow(true, Some(PictureAction::DeleteCopy)).last(), Some(&outside));
    assert_eq!(follow(false, Some(PictureAction::Reselect)).last(), Some(&outside));
}

#[test]
fn the_first_fault_is_told() {
    let mut export = PictureExport::start(true);
    for succeeded in [true, true, false, false, false] {
        export = export.next(succeeded);
    }
    assert_eq!(export.action, PictureAction::Failed(PictureFault::CopyChanged));
    assert_eq!(
        PictureFault::CopyChanged.message(),
        "PowerClip 位图临时副本的尺寸或位置发生变化"
    );
    let actions = follow(false, Some(PictureAction::LookForFile));
    assert_eq!(actions.last(), Some(&PictureAction::Failed(PictureFault::NoFile)));
    assert_eq!(PictureFault::NoFile.message(), "Corel 未生成透明 PNG");
    assert_eq!(PictureFault::Outside.message(), "位图导出失败");
}
