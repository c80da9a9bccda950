//! Exporting a document as SVG without leaving traces in it.
//!
//! Bitmaps are renamed for the time of a second export, and selected one by one for
//! theirs. Whatever goes wrong, the names, the selection and the mark of unsaved changes
//! are put back before the outcome is told, and the file is written last.

use vstd::prelude::*;

verus! {

/// What an export does next.
#[derive(Debug, Clone, Copy, PartialEq, Eq, Structural)]
pub enum ExportAction {
    /// Export the document as it is.
    ExportNative,
    /// Find the images in what was exported.
    InspectNative,
    /// Give the bitmap with that index its marker as a name.
    Mark(usize),
    /// Export the document with markers.
    ExportMarked,
    /// Give the bitmap with that index its name again.
    Unmark(usize),
    /// Put the mark of unsaved changes back.
    Unsully,
    /// Find the images in what was exported with markers, and which bitmaps they are.
    InspectMarked,
    /// Export the bitmaps that have to be replaced.
    ExportPictures,
    /// Put the pictures in.
    Assemble,
    /// In the end, give the bitmap with that index its name again.
    RestoreName(usize),
    /// Select what was selected before.
    RestoreSelection,
    /// Put the mark of unsaved changes back.
    RestoreMark,
    /// Write the file.
    Write,
    /// The file is written.
    Done,
    /// The file is not written.
    Failed(ExportFault),
}

/// Which of the things that went wrong is told.
#[derive(Debug, Clone, Copy, PartialEq, Eq, Structural)]
pub enum ExportFault {
    /// The first that went wrong in the export itself.
    Work,
    /// The first name that could not be put back.
    Names,
    /// The selection could not be put back.
    Selection,
    /// The mark of unsaved changes could not be put back.
    Mark,
    /// The file could not be written.
    Write,
}

/// How an action went.
#[derive(Debug, Clone, Copy, PartialEq, Eq, Structural)]
pub enum ExportReply {
    Succeeded,
    Failed,
    /// It succeeded, and no picture has to be replaced.
    NothingToReplace,
}

/// An export in progress.
#[derive(Debug, Clone, Copy, PartialEq, Eq, Structural)]
pub struct SvgExport {
    /// How many bitmaps there are.
    pub bitmaps: usize,
    /// How many of them have a marker as a name, or may have one.
    pub renamed: usize,
    /// What went wrong.
    pub fault: Option<ExportFault>,
    pub action: ExportAction,
}

impl SvgExport {
    pub open spec fn spec_start(bitmaps: usize) -> SvgExport {
        SvgExport { bitmaps, renamed: 0, fault: None, action: ExportAction::ExportNative }
    }

    /// An export that has not begun.
    pub fn start(bitmaps: usize) -> (res: SvgExport)
        ensures
            res == SvgExport::spec_start(bitmaps),
    {
        SvgExport { bitmaps, renamed: 0, fault: None, action: ExportAction::ExportNative }
    }

    pub open spec fn with_action(self, action: ExportAction) -> SvgExport {
        SvgExport { action, ..self }
    }

    /// The export with something that went wrong, unless something did before.
    pub open spec fn with_fault(self, reply: ExportReply, fault: ExportFault) -> SvgExport {
        if reply is Failed && self.fault is None {
            SvgExport { fault: Some(fault), ..self }
        } else {
            self
        }
    }

    /// The start of putting everything back.
    pub open spec fn restoring(self) -> SvgExport {
        self.with_action(
            if self.renamed > 0 {
                ExportAction::RestoreName((self.renamed - 1) as usize)
            } else {
                ExportAction::RestoreSelection
            },
        )
    }

    /// The next bitmap to mark, or the export with markers.
    pub open spec fn marking(self) -> SvgExport {
        self.with_action(
            if self.renamed < self.bitmaps {
                ExportAction::Mark(self.renamed)
            } else {
                ExportAction::ExportMarked
            },
        )
    }

    /// What comes when all markers were taken off, as far as that went well.
    pub open spec fn unmarked(self) -> SvgExport {
        if self.fault is None {
            SvgExport { renamed: 0, action: ExportAction::Unsully, ..self }
        } else {
            self.restoring()
        }
    }

    /// A part of the work: what comes after it if it went well.
    pub open spec fn working(self, reply: ExportReply, next: SvgExport) -> SvgExport {
        if reply is Failed {
            self.with_fault(reply, ExportFault::Work).restoring()
        } else {
            next
        }
    }

    /// The end of an export: the file is written if nothing went wrong.
    pub open spec fn restored(self) -> SvgExport {
        self.with_action(
            match self.fault {
                None => ExportAction::Write,
                Some(fault) => ExportAction::Failed(fault),
            },
        )
    }

    /// What comes after the current action.
    pub open spec fn spec_next(self, reply: ExportReply) -> SvgExport {
        match self.action {
            ExportAction::ExportNative => self.working(
                reply,
                self.with_action(ExportAction::InspectNative),
            ),
            ExportAction::InspectNative => self.working(
                reply,
                if reply is NothingToReplace {
                    self.restoring()
                } else {
                    self.marking()
                },
            ),
            ExportAction::Mark(index) => self.working(
                reply,
                SvgExport {
                    renamed: if index < self.bitmaps {
                        (index + 1) as usize
                    } else {
                        index
                    },
                    ..self
                }.marking(),
            ),
            ExportAction::ExportMarked => self.working(
                reply,
                if self.renamed > 0 {
                    self.with_action(ExportAction::Unmark((self.renamed - 1) as usize))
                } else {
                    self.unmarked()
                },
            ),
            ExportAction::Unmark(index) => {
                let after = self.with_fault(reply, ExportFault::Work);
                if index > 0 {
                    after.with_action(ExportAction::Unmark((index - 1) as usize))
                } else {
                    after.unmarked()
                }
            },
            ExportAction::Unsully => self.working(
                reply,
                self.with_action(ExportAction::InspectMarked),
            ),
            ExportAction::InspectMarked => self.working(
                reply,
                self.with_action(ExportAction::ExportPictures),
            ),
            ExportAction::ExportPictures => self.working(
                reply,
                self.with_action(ExportAction::Assemble),
            ),
            ExportAction::Assemble => self.working(reply, self.restoring()),
            ExportAction::RestoreName(index) => {
                let after = self.with_fault(reply, ExportFault::Names);
                if index > 0 {
                    after.with_action(ExportAction::RestoreName((index - 1) as usize))
                } else {
                    after.with_action(ExportAction::RestoreSelection)
                }
            },
            ExportAction::RestoreSelection => self.with_fault(
                reply,
                ExportFault::Selection,
            ).with_action(ExportAction::RestoreMark),
            ExportAction::RestoreMark => self.with_fault(reply, ExportFault::Mark).restored(),
            ExportAction::Write => if reply is Failed {
                SvgExport {
                    fault: Some(ExportFault::Write),
                    action: ExportAction::Failed(ExportFault::Write),
                    ..self
                }
            } else {
                self.with_action(ExportAction::Done)
            },
            ExportAction::Done => self,
            ExportAction::Failed(_) => self,
        }
    }

    fn note(&mut self, reply: ExportReply, fault: ExportFault)
        ensures
            *final(self) == old(self).with_fault(reply, fault),
    {
        if let ExportReply::Failed = reply {
            if self.fault.is_none() {
                self.fault = Some(fault);
            }
        }
    }

    fn restore(&mut self)
        ensures
            *final(self) == old(self).restoring(),
    {
        self.action = if self.renamed > 0 {
            ExportAction::RestoreName(self.renamed - 1)
        } else {
            ExportAction::RestoreSelection
        };
    }

    fn mark(&mut self)
        ensures
            *final(self) == old(self).marking(),
    {
        self.action = if self.renamed < self.bitmaps {
            ExportAction::Mark(self.renamed)
        } else {
            ExportAction::ExportMarked
        };
    }

    fn unmark(&mut self)
        ensures
            *final(self) == old(self).unmarked(),
    {
        if self.fault.is_none() {
            self.renamed = 0;
            self.action = ExportAction::Unsully;
        } else {
            self.restore();
        }
    }

    /// What comes after the current action.
    pub fn next(self, reply: ExportReply) -> (res: SvgExport)
        ensures
            res == self.spec_next(reply),
    {
        let mut next = self;
        let failed = match reply {
            ExportReply::Failed => true,
            _ => false,
        };
        match self.action {
            ExportAction::ExportNative | ExportAction::InspectNative | ExportAction::Mark(_)
            | ExportAction::ExportMarked | ExportAction::Unsully | ExportAction::InspectMarked
            | ExportAction::ExportPictures | ExportAction::Assemble => {
                if failed {
                    next.note(reply, ExportFault::Work);
                    next.restore();
                    return next;
                }
            },
            _ => {},
        }
        match self.action {
            ExportAction::ExportNative => {
                next.action = ExportAction::InspectNative;
            },
            ExportAction::InspectNative => {
                if let ExportReply::NothingToReplace = reply {
                    next.restore();
                } else {
                    next.mark();
                }
            },
            ExportAction::Mark(index) => {
                next.renamed = if index < self.bitmaps {
                    index + 1
                } else {
                    index
                };
                next.mark();
            },
            ExportAction::ExportMarked => {
                if self.renamed > 0 {
                    next.action = ExportAction::Unmark(self.renamed - 1);
                } else {
                    next.unmark();
                }
            },
            ExportAction::Unmark(index) => {
                next.note(reply, ExportFault::Work);
                if index > 0 {
                    next.action = ExportAction::Unmark(index - 1);
                } else {
                    next.unmark();
                }
            },
            ExportAction::Unsully => {
                next.action = ExportAction::InspectMarked;
            },
            ExportAction::InspectMarked => {
                next.action = ExportAction::ExportPictures;
            },
            ExportAction::ExportPictures => {
                next.action = ExportAction::Assemble;
            },
            ExportAction::Assemble => {
                next.restore();
            },
            ExportAction::RestoreName(index) => {
                next.note(reply, ExportFault::Names);
                next.action = if index > 0 {
                    ExportAction::RestoreName(index - 1)
                } else {
                    ExportAction::RestoreSelection
                };
            },
            ExportAction::RestoreSelection => {
                next.note(reply, ExportFault::Selection);
                next.action = ExportAction::RestoreMark;
            },
            ExportAction::RestoreMark => {
                next.note(reply, ExportFault::Mark);
                next.action = match next.fault {
                    None => ExportAction::Write,
                    Some(fault) => ExportAction::Failed(fault),
                };
            },
            ExportAction::Write => {
                if failed {
                    next.fault = Some(ExportFault::Write);
                    next.action = ExportAction::Failed(ExportFault::Write);
                } else {
                    next.action = ExportAction::Done;
                }
            },
            ExportAction::Done => {},
            ExportAction::Failed(_) => {},
        }
        next
    }

    /// Whether an export can be in this state.
    pub open spec fn is_valid(self) -> bool {
        &&& self.renamed <= self.bitmaps
        &&& match self.action {
            ExportAction::Mark(index) => index < self.bitmaps && self.renamed == index
                && self.fault is None,
            ExportAction::Unmark(index) => index < self.renamed,
            ExportAction::RestoreName(index) => index < self.renamed,
            ExportAction::ExportNative | ExportAction::InspectNative => self.renamed == 0
                && self.fault is None,
            ExportAction::ExportMarked => self.renamed == self.bitmaps && self.fault is None,
            ExportAction::Unsully | ExportAction::InspectMarked | ExportAction::ExportPictures
            | ExportAction::Assemble => self.renamed == 0 && self.fault is None,
            ExportAction::Write | ExportAction::Done => self.fault is None,
            _ => true,
        }
    }

    /// Whether an export has ended.
    pub open spec fn has_ended(self) -> bool {
        self.action is Done || self.action is Failed
    }

    /// How many actions an export can still take.
    pub open spec fn rank(self) -> int {
        let b = self.bitmaps as int;
        match self.action {
            ExportAction::ExportNative => 3 * b + 14,
            ExportAction::InspectNative => 3 * b + 13,
            ExportAction::Mark(index) => 3 * b - index + 12,
            ExportAction::ExportMarked => 2 * b + 11,
            ExportAction::Unmark(index) => b + index + 10,
            ExportAction::Unsully => b + 9,
            ExportAction::InspectMarked => b + 8,
            ExportAction::ExportPictures => b + 7,
            ExportAction::Assemble => b + 6,
            ExportAction::RestoreName(index) => index + 5,
            ExportAction::RestoreSelection => 4,
            ExportAction::RestoreMark => 3,
            ExportAction::Write => 2,
            ExportAction::Done | ExportAction::Failed(_) => 0,
        }
    }
}

/// An export ends, however its actions go.
pub proof fn law_an_export_ends(state: SvgExport, reply: ExportReply)
    requires
        state.is_valid(),
        !state.has_ended(),
    ensures
        state.spec_next(reply).is_valid(),
        0 <= state.spec_next(reply).rank() < state.rank(),
{
}

// ---------------------------------------------------------------------------
// What happens to the document
// ---------------------------------------------------------------------------

/// A document, as far as an export is concerned.
pub struct ExportedDocument {
    /// Whether each bitmap has its own name.
    pub named: Seq<bool>,
    /// Whether what was selected is selected.
    pub selected: bool,
    /// Whether the mark of unsaved changes is as it was.
    pub unsullied: bool,
    /// Whether the file is written.
    pub written: bool,
}

impl ExportedDocument {
    /// Whether the document is as it was.
    pub open spec fn is_as_it_was(self) -> bool {
        &&& forall|i: int| 0 <= i < self.named.len() ==> #[trigger] self.named[i]
        &&& self.selected
        &&& self.unsullied
    }
}

/// What an action does to the document and the file. Renaming and selecting may set the
/// mark of unsaved changes; an action that fails renames nothing, and puts nothing back.
pub open spec fn export_effect(
    action: ExportAction,
    reply: ExportReply,
    before: ExportedDocument,
    after: ExportedDocument,
) -> bool {
    &&& match action {
        ExportAction::Mark(index) => after.named == (if reply is Failed {
            before.named
        } else {
            before.named.update(index as int, false)
        }),
        ExportAction::Unmark(index) | ExportAction::RestoreName(index) => after.named == (
        if reply is Failed {
            before.named
        } else {
            before.named.update(index as int, true)
        }),
        _ => after.named == before.named,
    }
    &&& match action {
        ExportAction::RestoreSelection => !(reply is Failed) ==> after.selected,
        ExportAction::RestoreMark | ExportAction::Write | ExportAction::Done
        | ExportAction::Failed(_) => after.selected == before.selected,
        _ => true,
    }
    &&& match action {
        ExportAction::RestoreMark => !(reply is Failed) ==> after.unsullied,
        ExportAction::Write | ExportAction::Done | ExportAction::Failed(_) => after.unsullied
            == before.unsullied,
        _ => true,
    }
    &&& after.written == (before.written || (action is Write && !(reply is Failed)))
}

/// Whether action `k` was answered, and did to the document what it does.
pub open spec fn is_export_step(
    states: Seq<SvgExport>,
    documents: Seq<ExportedDocument>,
    replies: Seq<ExportReply>,
    k: int,
) -> bool {
    &&& states[k + 1] == states[k].spec_next(replies[k])
    &&& export_effect(states[k].action, replies[k], documents[k], documents[k + 1])
}

/// Whether `states` and `documents` are the course of an export in which the actions
/// were answered by `replies`.
pub open spec fn is_export_course(
    states: Seq<SvgExport>,
    documents: Seq<ExportedDocument>,
    replies: Seq<ExportReply>,
) -> bool {
    &&& states.len() == replies.len() + 1
    &&& documents.len() == replies.len() + 1
    &&& states[0] == SvgExport::spec_start(states[0].bitmaps)
    &&& documents[0].named.len() == states[0].bitmaps
    &&& documents[0].is_as_it_was()
    &&& !documents[0].written
    &&& forall|k: int|
        0 <= k < replies.len() ==> #[trigger] is_export_step(states, documents, replies, k)
}

/// Whether every bitmap from `from` on has its own name.
spec fn named_from(document: ExportedDocument, from: int) -> bool {
    forall|i: int| from <= i < document.named.len() ==> #[trigger] document.named[i]
}

/// What holds in the course of an export; `worked` says whether putting things back in
/// the end worked as far as it was tried.
spec fn export_holds(state: SvgExport, document: ExportedDocument, worked: bool) -> bool {
    &&& state.is_valid()
    &&& document.named.len() == state.bitmaps
    &&& named_from(document, state.renamed as int)
    &&& document.written == (state.action is Done)
    &&& match state.action {
        ExportAction::Unmark(index) => state.fault is None ==> named_from(
            document,
            index + 1,
        ),
        ExportAction::RestoreName(index) => worked || state.fault is None ==> named_from(
            document,
            index + 1,
        ),
        ExportAction::RestoreSelection => worked || state.fault is None ==> named_from(
            document,
            0,
        ),
        ExportAction::RestoreMark => worked || state.fault is None ==> named_from(document, 0)
            && document.selected,
        ExportAction::Write | ExportAction::Done => document.is_as_it_was(),
        ExportAction::Failed(_) => worked ==> document.is_as_it_was(),
        _ => true,
    }
}

/// Whether putting things back in the end worked in the first `k` actions.
pub open spec fn restoring_worked(
    states: Seq<SvgExport>,
    replies: Seq<ExportReply>,
    k: int,
) -> bool {
    forall|i: int|
        0 <= i < k && ((#[trigger] states[i]).action is RestoreName
            || states[i].action is RestoreSelection || states[i].action is RestoreMark)
            ==> !(replies[i] is Failed)
}

proof fn lemma_export_course(
    states: Seq<SvgExport>,
    documents: Seq<ExportedDocument>,
    replies: Seq<ExportReply>,
    k: int,
)
    requires
        is_export_course(states, documents, replies),
        0 <= k <= replies.len(),
    ensures
        export_holds(states[k], documents[k], restoring_worked(states, replies, k)),
    decreases k,
{
    if k > 0 {
        lemma_export_course(states, documents, replies, k - 1);
        assert(is_export_step(states, documents, replies, k - 1));
        let before = documents[k - 1];
        let after = documents[k];
        let state = states[k - 1];
        let next = states[k];
        if restoring_worked(states, replies, k) {
            assert(restoring_worked(states, replies, k - 1));
            if state.action is RestoreName || state.action is RestoreSelection
                || state.action is RestoreMark {
                assert(!(replies[k - 1] is Failed));
            }
        }
        assert forall|from: int|
            next.renamed <= from && named_from(before, from) implies #[trigger] named_from(
            after,
            from,
        ) by {
            assert forall|i: int| from <= i < after.named.len() implies #[trigger] after.named[i] by {
                assert(before.named[i]);
            }
        }
        if named_from(before, 0) && !(state.action is Mark) {
            assert forall|i: int| 0 <= i < after.named.len() implies #[trigger] after.named[i] by {
                assert(before.named[i]);
            }
            assert(named_from(after, 0));
        }
        assert(named_from(before, state.renamed as int));
        match state.action {
            ExportAction::Mark(index) => {
                assert forall|i: int|
                    next.renamed <= i < after.named.len() implies #[trigger] after.named[i] by {
                    assert(before.named[i]);
                }
            },
            ExportAction::Unmark(index) | ExportAction::RestoreName(index) => {
                assert forall|i: int|
                    state.renamed <= i < after.named.len() implies #[trigger] after.named[i] by {
                    assert(before.named[i]);
                }
                if named_from(before, index + 1) && !(replies[k - 1] is Failed) {
                    assert forall|i: int|
                        index <= i < after.named.len() implies #[trigger] after.named[i] by {
                        if i > index {
                            assert(before.named[i]);
                        }
                    }
                    assert(named_from(after, index as int));
                }
            },
            _ => {
                assert(after.named == before.named);
                assert(named_from(after, state.renamed as int));
            },
        }
    } else {
        assert(named_from(documents[0], 0));
    }
}

/// When an export has ended, the document is as it was, provided that what is put back in
/// the end could be put back.
pub proof fn law_an_export_leaves_no_traces(
    states: Seq<SvgExport>,
    documents: Seq<ExportedDocument>,
    replies: Seq<ExportReply>,
    k: int,
)
    requires
        is_export_course(states, documents, replies),
        0 <= k <= replies.len(),
        states[k].has_ended(),
        restoring_worked(states, replies, k),
    ensures
        documents[k].is_as_it_was(),
{
    lemma_export_course(states, documents, replies, k);
}

/// A file is written exactly by an export that is done, and only when the document is as
/// it was.
pub proof fn law_a_file_is_written_last(
    states: Seq<SvgExport>,
    documents: Seq<ExportedDocument>,
    replies: Seq<ExportReply>,
    k: int,
)
    requires
        is_export_course(states, documents, replies),
        0 <= k <= replies.len(),
    ensures
        documents[k].written == (states[k].action is Done),
        states[k].action is Write || states[k].action is Done ==> documents[k].is_as_it_was(),
{
    lemma_export_course(states, documents, replies, k);
}

// ---------------------------------------------------------------------------
// The way to the file
// ---------------------------------------------------------------------------

/// The stages of an export, in order.
pub open spec fn export_stage(action: ExportAction) -> int {
    match action {
        ExportAction::ExportNative => 0,
        ExportAction::InspectNative => 1,
        ExportAction::Mark(_) => 2,
        ExportAction::ExportMarked => 3,
        ExportAction::Unmark(_) => 4,
        ExportAction::Unsully => 5,
        ExportAction::InspectMarked => 6,
        ExportAction::ExportPictures => 7,
        ExportAction::Assemble => 8,
        ExportAction::RestoreName(_) => 9,
        ExportAction::RestoreSelection => 10,
        ExportAction::RestoreMark => 11,
        ExportAction::Write => 12,
        ExportAction::Done => 13,
        ExportAction::Failed(_) => 14,
    }
}

/// An export of bitmaps in which every action succeeds takes every stage in order, but that no
/// name is put back in the end when all of them are back already, and comes to its file. Every
/// bitmap is marked, and every mark taken away again, one after the other.
pub proof fn law_an_export_that_works_takes_every_stage(state: SvgExport)
    requires
        state.is_valid(),
        !state.has_ended(),
        state.fault is None,
        state.bitmaps > 0,
        state.action is RestoreName ==> state.renamed > 0,
    ensures
        ({
            let next = state.spec_next(ExportReply::Succeeded);
            &&& next.fault is None
            &&& !(next.action is Failed)
            &&& match state.action {
                ExportAction::Mark(index) => next.action == if index + 1 < state.bitmaps {
                    ExportAction::Mark((index + 1) as usize)
                } else {
                    ExportAction::ExportMarked
                },
                ExportAction::Unmark(index) => next.action == if index > 0 {
                    ExportAction::Unmark((index - 1) as usize)
                } else {
                    ExportAction::Unsully
                },
                ExportAction::RestoreName(index) => next.action == if index > 0 {
                    ExportAction::RestoreName((index - 1) as usize)
                } else {
                    ExportAction::RestoreSelection
                },
                ExportAction::Assemble => state.renamed == 0 ==> next.action
                    == ExportAction::RestoreSelection,
                ExportAction::InspectNative => state.renamed == 0 ==> next.action
                    == ExportAction::Mark(0),
                _ => export_stage(next.action) == export_stage(state.action) + 1,
            }
        }),
{
}

/// An export without anything to replace puts everything back and writes what was exported.
pub proof fn law_an_export_may_have_nothing_to_replace(bitmaps: usize)
    ensures
        ({
            let looked = SvgExport::spec_start(bitmaps).spec_next(ExportReply::Succeeded).spec_next(
                ExportReply::NothingToReplace,
            );
            let end = looked.spec_next(ExportReply::Succeeded).spec_next(
                ExportReply::Succeeded,
            ).spec_next(ExportReply::Succeeded);
            &&& looked.action == ExportAction::RestoreSelection
            &&& end.action == ExportAction::Done
        }),
{
}

/// Of several things that go wrong the first is told, and it is told by what it was: work, a
/// name, the selection, the mark or the file.
pub proof fn law_the_first_fault_of_an_export_is_told(state: SvgExport, reply: ExportReply)
    requires
        state.is_valid(),
        !state.has_ended(),
    ensures
        ({
            let next = state.spec_next(reply);
            &&& state.fault is Some && !(state.action is Write) ==> next.fault == state.fault
            &&& state.fault is None && !(reply is Failed) ==> next.fault is None
            &&& state.fault is None && reply is Failed ==> next.fault == Some(
                match state.action {
                    ExportAction::RestoreName(_) => ExportFault::Names,
                    ExportAction::RestoreSelection => ExportFault::Selection,
                    ExportAction::RestoreMark => ExportFault::Mark,
                    ExportAction::Write => ExportFault::Write,
                    _ => ExportFault::Work,
                },
            )
            &&& next.action matches ExportAction::Failed(fault) ==> next.fault == Some(fault)
        }),
{
}

} // verus!
