//! The course of exporting the picture of one bitmap.
//!
//! A bitmap that is clipped shows only a part of itself, so a copy outside of what clips it
//! is exported in its place. The copy is deleted and what was selected is selected again
//! however the export goes.

use vstd::prelude::*;

verus! {

/// What is done next.
#[derive(Debug, Clone, Copy, PartialEq, Eq, Structural)]
pub enum PictureAction {
    /// Duplicate the bitmap in its place.
    Duplicate,
    /// Move the copy to the active layer.
    MoveCopy,
    /// Hold the place and the size of the copy against those of the bitmap.
    CompareCopy,
    /// Select the copy, or the bitmap if there is none.
    Select,
    /// Export what is selected.
    Export,
    /// Delete the copy.
    DeleteCopy,
    /// Select what was selected.
    Reselect,
    /// Look for the exported file.
    LookForFile,
    /// The picture is exported.
    Done,
    /// The picture was not exported.
    Failed(PictureFault),
}

/// Why a picture was not exported.
#[derive(Debug, Clone, Copy, PartialEq, Eq, Structural)]
pub enum PictureFault {
    /// Something that was done failed.
    Outside,
    /// The copy does not stand where the bitmap does.
    CopyChanged,
    /// There is no file.
    NoFile,
}

impl PictureFault {
    /// The text shown for the fault.
    pub open spec fn spec_message(self) -> Seq<char> {
        match self {
            PictureFault::Outside => "位图导出失败"@,
            PictureFault::CopyChanged => "PowerClip 位图临时副本的尺寸或位置发生变化"@,
            PictureFault::NoFile => "Corel 未生成透明 PNG"@,
        }
    }

    /// The text shown for the fault.
    pub fn message(self) -> (res: &'static str)
        ensures
            res@ == self.spec_message(),
    {
        match self {
            PictureFault::Outside => "位图导出失败",
            PictureFault::CopyChanged => "PowerClip 位图临时副本的尺寸或位置发生变化",
            PictureFault::NoFile => "Corel 未生成透明 PNG",
        }
    }
}

/// The export of the picture of a bitmap.
#[derive(Debug, Clone, Copy, PartialEq, Eq, Structural)]
pub struct PictureExport {
    pub action: PictureAction,
    /// Whether a copy of the bitmap was made.
    pub copied: bool,
    /// What went wrong first.
    pub fault: Option<PictureFault>,
}

impl PictureExport {
    pub open spec fn spec_start(clipped: bool) -> PictureExport {
        PictureExport {
            action: if clipped {
                PictureAction::Duplicate
            } else {
                PictureAction::Select
            },
            copied: false,
            fault: None,
        }
    }

    /// Starts to export the picture of a bitmap.
    pub fn start(clipped: bool) -> (res: PictureExport)
        ensures
            res == PictureExport::spec_start(clipped),
    {
        PictureExport {
            action: if clipped {
                PictureAction::Duplicate
            } else {
                PictureAction::Select
            },
            copied: false,
            fault: None,
        }
    }

    pub open spec fn with_action(self, action: PictureAction) -> PictureExport {
        PictureExport { action, ..self }
    }

    /// A fault, unless there was one before.
    pub open spec fn with_fault(self, fault: PictureFault) -> PictureExport {
        PictureExport {
            fault: if self.fault is Some {
                self.fault
            } else {
                Some(fault)
            },
            ..self
        }
    }

    /// What is done when nothing is left to export.
    pub open spec fn leaving(self) -> PictureExport {
        self.with_action(
            if self.copied {
                PictureAction::DeleteCopy
            } else {
                PictureAction::Reselect
            },
        )
    }

    /// What comes after the current action, whether it succeeded or not.
    pub open spec fn spec_next(self, succeeded: bool) -> PictureExport {
        match self.action {
            PictureAction::Duplicate => if succeeded {
                PictureExport { copied: true, ..self }.with_action(PictureAction::MoveCopy)
            } else {
                self.with_fault(PictureFault::Outside).leaving()
            },
            PictureAction::MoveCopy => if succeeded {
                self.with_action(PictureAction::CompareCopy)
            } else {
                self.with_fault(PictureFault::Outside).leaving()
            },
            PictureAction::CompareCopy => if succeeded {
                self.with_action(PictureAction::Select)
            } else {
                self.with_fault(PictureFault::CopyChanged).leaving()
            },
            PictureAction::Select => if succeeded {
                self.with_action(PictureAction::Export)
            } else {
                self.with_fault(PictureFault::Outside).leaving()
            },
            PictureAction::Export => if succeeded {
                self.leaving()
            } else {
                self.with_fault(PictureFault::Outside).leaving()
            },
            PictureAction::DeleteCopy => if succeeded {
                self.with_action(PictureAction::Reselect)
            } else {
                self.with_fault(PictureFault::Outside).with_action(PictureAction::Reselect)
            },
            PictureAction::Reselect => match (self.fault, succeeded) {
                (Some(fault), _) => self.with_action(PictureAction::Failed(fault)),
                (None, true) => self.with_action(PictureAction::LookForFile),
                (None, false) => self.with_fault(PictureFault::Outside).with_action(
                    PictureAction::Failed(PictureFault::Outside),
                ),
            },
            PictureAction::LookForFile => if succeeded {
                self.with_action(PictureAction::Done)
            } else {
                self.with_fault(PictureFault::NoFile).with_action(
                    PictureAction::Failed(PictureFault::NoFile),
                )
            },
            PictureAction::Done => self,
            PictureAction::Failed(_) => self,
        }
    }

    fn act(self, action: PictureAction) -> (res: PictureExport)
        ensures
            res == self.with_action(action),
    {
        PictureExport { action, ..self }
    }

    fn blame(self, fault: PictureFault) -> (res: PictureExport)
        ensures
            res == self.with_fault(fault),
    {
        if self.fault.is_some() {
            self
        } else {
            PictureExport { fault: Some(fault), ..self }
        }
    }

    fn leave(self) -> (res: PictureExport)
        ensures
            res == self.leaving(),
    {
        if self.copied {
            self.act(PictureAction::DeleteCopy)
        } else {
            self.act(PictureAction::Reselect)
        }
    }

    /// What comes after the current action, whether it succeeded or not.
    pub fn next(self, succeeded: bool) -> (res: PictureExport)
        ensures
            res == self.spec_next(succeeded),
    {
        match (self.action, succeeded) {
            (PictureAction::Duplicate, true) => {
                PictureExport { copied: true, ..self }.act(PictureAction::MoveCopy)
            },
            (PictureAction::MoveCopy, true) => self.act(PictureAction::CompareCopy),
            (PictureAction::CompareCopy, true) => self.act(PictureAction::Select),
            (PictureAction::CompareCopy, false) => self.blame(PictureFault::CopyChanged).leave(),
            (PictureAction::Select, true) => self.act(PictureAction::Export),
            (PictureAction::Export, true) => self.leave(),
            (PictureAction::Duplicate, false) | (PictureAction::MoveCopy, false)
            | (PictureAction::Select, false) | (PictureAction::Export, false) => {
                self.blame(PictureFault::Outside).leave()
            },
            (PictureAction::DeleteCopy, true) => self.act(PictureAction::Reselect),
            (PictureAction::DeleteCopy, false) => {
                self.blame(PictureFault::Outside).act(PictureAction::Reselect)
            },
            (PictureAction::Reselect, _) => {
                let told = if succeeded {
                    self
                } else {
                    self.blame(PictureFault::Outside)
                };
                match told.fault {
                    Some(fault) => told.act(PictureAction::Failed(fault)),
                    None => told.act(PictureAction::LookForFile),
                }
            },
            (PictureAction::LookForFile, true) => self.act(PictureAction::Done),
            (PictureAction::LookForFile, false) => {
                self.blame(PictureFault::NoFile).act(PictureAction::Failed(PictureFault::NoFile))
            },
            (PictureAction::Done, _) | (PictureAction::Failed(_), _) => self,
        }
    }

    /// Whether an export can be in this state.
    pub open spec fn is_valid(self) -> bool {
        match self.action {
            PictureAction::Duplicate => !self.copied && self.fault is None,
            PictureAction::MoveCopy | PictureAction::CompareCopy => self.copied
                && self.fault is None,
            PictureAction::DeleteCopy => self.copied,
            PictureAction::Reselect => true,
            PictureAction::Failed(fault) => self.fault == Some(fault),
            _ => self.fault is None,
        }
    }

    /// Whether an export has ended.
    pub open spec fn has_ended(self) -> bool {
        self.action is Done || self.action is Failed
    }

    /// How many actions an export can still take.
    pub open spec fn rank(self) -> int {
        match self.action {
            PictureAction::Duplicate => 8,
            PictureAction::MoveCopy => 7,
            PictureAction::CompareCopy => 6,
            PictureAction::Select => 5,
            PictureAction::Export => 4,
            PictureAction::DeleteCopy => 3,
            PictureAction::Reselect => 2,
            PictureAction::LookForFile => 1,
            PictureAction::Done | PictureAction::Failed(_) => 0,
        }
    }
}

/// The export of a picture ends, however its actions go.
pub proof fn law_a_picture_export_ends(state: PictureExport, succeeded: bool)
    requires
        state.is_valid(),
        !state.has_ended(),
    ensures
        state.spec_next(succeeded).is_valid(),
        0 <= state.spec_next(succeeded).rank() < state.rank(),
{
}

// ---------------------------------------------------------------------------
// What happens to the document
// ---------------------------------------------------------------------------

/// A document, as far as the export of a picture is concerned.
pub struct PictureDocument {
    /// How many copies of the bitmap it holds.
    pub copies: nat,
    /// Whether what was selected is selected.
    pub selected: bool,
    /// Whether there is a file.
    pub exported: bool,
}

/// What an action does to the document and the file. Where an action fails, there is no
/// new copy, and none is deleted; a copy may be selected when it is made.
pub open spec fn picture_effect(
    action: PictureAction,
    succeeded: bool,
    before: PictureDocument,
    after: PictureDocument,
) -> bool {
    &&& after.copies == (match action {
        PictureAction::Duplicate => if succeeded {
            before.copies + 1
        } else {
            before.copies
        },
        PictureAction::DeleteCopy => if succeeded && before.copies > 0 {
            (before.copies - 1) as nat
        } else {
            before.copies
        },
        _ => before.copies,
    })
    &&& match action {
        PictureAction::Reselect => succeeded ==> after.selected,
        PictureAction::LookForFile | PictureAction::Done | PictureAction::Failed(_) => {
            after.selected == before.selected
        },
        _ => true,
    }
    &&& match action {
        PictureAction::Export => true,
        _ => after.exported == before.exported,
    }
    &&& action is LookForFile ==> succeeded == before.exported
}

/// Whether action `k` was answered, and did to the document what it does.
pub open spec fn is_picture_step(
    states: Seq<PictureExport>,
    documents: Seq<PictureDocument>,
    replies: Seq<bool>,
    k: int,
) -> bool {
    &&& states[k + 1] == states[k].spec_next(replies[k])
    &&& picture_effect(states[k].action, replies[k], documents[k], documents[k + 1])
}

/// Whether `states` and `documents` are the course of an export, where `replies` tells
/// which actions succeeded.
pub open spec fn is_picture_course(
    states: Seq<PictureExport>,
    documents: Seq<PictureDocument>,
    replies: Seq<bool>,
    clipped: bool,
) -> bool {
    &&& states.len() == replies.len() + 1
    &&& documents.len() == replies.len() + 1
    &&& states[0] == PictureExport::spec_start(clipped)
    &&& documents[0].copies == 0
    &&& forall|k: int|
        0 <= k < replies.len() ==> #[trigger] is_picture_step(states, documents, replies, k)
}

/// Whether a copy could be deleted in the first `k` actions, as far as that was tried.
pub open spec fn deleting_worked(states: Seq<PictureExport>, replies: Seq<bool>, k: int) -> bool {
    forall|i: int| 0 <= i < k && (#[trigger] states[i]).action is DeleteCopy ==> replies[i]
}

/// Whether what was selected could be selected in the first `k` actions, as far as that
/// was tried.
pub open spec fn reselecting_worked(
    states: Seq<PictureExport>,
    replies: Seq<bool>,
    k: int,
) -> bool {
    forall|i: int| 0 <= i < k && (#[trigger] states[i]).action is Reselect ==> replies[i]
}

/// What holds in the course of an export.
spec fn picture_holds(
    state: PictureExport,
    document: PictureDocument,
    deleted: bool,
    reselected: bool,
) -> bool {
    &&& state.is_valid()
    &&& match state.action {
        PictureAction::Reselect => deleted || state.fault is None ==> document.copies == 0,
        PictureAction::LookForFile => document.copies == 0 && document.selected,
        PictureAction::Done => document.copies == 0 && document.selected && document.exported,
        PictureAction::Failed(_) => {
            &&& deleted ==> document.copies == 0
            &&& reselected ==> document.selected
        },
        _ => document.copies == if state.copied {
            1nat
        } else {
            0nat
        },
    }
}

proof fn lemma_picture_course(
    states: Seq<PictureExport>,
    documents: Seq<PictureDocument>,
    replies: Seq<bool>,
    clipped: bool,
    k: int,
)
    requires
        is_picture_course(states, documents, replies, clipped),
        0 <= k <= replies.len(),
    ensures
        picture_holds(
            states[k],
            documents[k],
            deleting_worked(states, replies, k),
            reselecting_worked(states, replies, k),
        ),
    decreases k,
{
    if k > 0 {
        lemma_picture_course(states, documents, replies, clipped, k - 1);
        assert(is_picture_step(states, documents, replies, k - 1));
        if deleting_worked(states, replies, k) {
            assert(deleting_worked(states, replies, k - 1));
            assert(states[k - 1].action is DeleteCopy ==> replies[k - 1]);
        }
        if reselecting_worked(states, replies, k) {
            assert(reselecting_worked(states, replies, k - 1));
            assert(states[k - 1].action is Reselect ==> replies[k - 1]);
        }
    }
}

/// When an export has ended, no copy of the bitmap is left, provided that deleting it
/// works.
pub proof fn law_no_copy_is_left(
    states: Seq<PictureExport>,
    documents: Seq<PictureDocument>,
    replies: Seq<bool>,
    clipped: bool,
    k: int,
)
    requires
        is_picture_course(states, documents, replies, clipped),
        0 <= k <= replies.len(),
        states[k].has_ended(),
        deleting_worked(states, replies, k),
    ensures
        documents[k].copies == 0,
{
    lemma_picture_course(states, documents, replies, clipped, k);
}

/// When an export has ended, what was selected is selected, provided that selecting it
/// works.
pub proof fn law_the_selection_is_kept(
    states: Seq<PictureExport>,
    documents: Seq<PictureDocument>,
    replies: Seq<bool>,
    clipped: bool,
    k: int,
)
    requires
        is_picture_course(states, documents, replies, clipped),
        0 <= k <= replies.len(),
        states[k].has_ended(),
        reselecting_worked(states, replies, k),
    ensures
        documents[k].selected,
{
    lemma_picture_course(states, documents, replies, clipped, k);
}

/// An export is done only when there is a file, no copy is left and what was selected is
/// selected.
pub proof fn law_an_exported_picture_is_there(
    states: Seq<PictureExport>,
    documents: Seq<PictureDocument>,
    replies: Seq<bool>,
    clipped: bool,
    k: int,
)
    requires
        is_picture_course(states, documents, replies, clipped),
        0 <= k <= replies.len(),
        states[k].action is Done,
    ensures
        documents[k].exported,
        documents[k].copies == 0,
        documents[k].selected,
{
    lemma_picture_course(states, documents, replies, clipped, k);
}

/// An export in which every action succeeds is done: a clipped bitmap is exported as a copy,
/// which is selected, exported and deleted; another one is selected and exported itself.
pub proof fn law_an_export_that_works_is_done()
    ensures
        ({
            let selected = PictureExport::spec_start(true).spec_next(true).spec_next(
                true,
            ).spec_next(true);
            let exported = selected.spec_next(true).spec_next(true);
            &&& selected.action == PictureAction::Select
            &&& selected.copied
            &&& exported.action == PictureAction::DeleteCopy
            &&& exported.spec_next(true).spec_next(true).spec_next(true).action
                == PictureAction::Done
        }),
        ({
            let exported = PictureExport::spec_start(false).spec_next(true).spec_next(true);
            &&& exported.action == PictureAction::Reselect
            &&& exported.spec_next(true).spec_next(true).action == PictureAction::Done
        }),
{
}

/// What went wrong first is told, and told by what it was; nothing goes wrong by itself.
pub proof fn law_the_first_fault_of_a_picture_is_told(state: PictureExport, succeeded: bool)
    requires
        state.is_valid(),
        !state.has_ended(),
    ensures
        ({
            let next = state.spec_next(succeeded);
            &&& state.fault is Some ==> next.fault == state.fault
            &&& state.fault is None && succeeded ==> next.fault is None
            &&& state.fault is None && !succeeded ==> next.fault == Some(
                match state.action {
                    PictureAction::CompareCopy => PictureFault::CopyChanged,
                    PictureAction::LookForFile => PictureFault::NoFile,
                    _ => PictureFault::Outside,
                },
            )
        }),
{
}

} // verus!
