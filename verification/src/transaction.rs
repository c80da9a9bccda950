//! Changing a document as one command that can be undone.
//!
//! All changes are made inside a command group. When one of them fails, the group is
//! closed and undone, so that the document is as it was.

use vstd::prelude::*;

use crate::merge::{
    law_a_group_is_outlines_and_holes, law_groups_are_components, merge_groups, MergePlan,
};
use crate::names::SelectionOperation;

verus! {

/// What a transaction does next.
#[derive(Debug, Clone, Copy, PartialEq, Eq, Structural)]
pub enum TransactionAction {
    /// Open the command group.
    Begin,
    /// Make the change with that number.
    Step(usize),
    /// Close the command group.
    Commit,
    /// Select what was selected before.
    Reselect,
    /// Close the command group in order to undo it.
    Abort,
    /// Undo the last command.
    Undo,
    /// Select what was selected before, after everything was undone.
    ReselectUndone,
    /// All changes were made.
    Done,
    /// Nothing was changed.
    Failed,
}

/// A transaction in progress.
#[derive(Debug, Clone, Copy, PartialEq, Eq, Structural)]
pub struct Transaction {
    /// How many changes are made.
    pub steps: usize,
    /// Whether what was selected before is selected again in the end.
    pub reselects: bool,
    /// Whether what was selected before is selected again after an undo.
    pub reselects_undone: bool,
    pub action: TransactionAction,
}

impl Transaction {
    pub open spec fn spec_start(steps: usize, reselects: bool, reselects_undone: bool) -> Transaction {
        Transaction { steps, reselects, reselects_undone, action: TransactionAction::Begin }
    }

    /// A transaction that has not begun.
    pub fn start(steps: usize, reselects: bool, reselects_undone: bool) -> (res: Transaction)
        ensures
            res == Transaction::spec_start(steps, reselects, reselects_undone),
    {
        Transaction { steps, reselects, reselects_undone, action: TransactionAction::Begin }
    }

    pub open spec fn with_action(self, action: TransactionAction) -> Transaction {
        Transaction { action, ..self }
    }

    /// The change with that number, or the end of the changes.
    pub open spec fn step_or_commit(self, number: int) -> TransactionAction {
        if number < self.steps {
            TransactionAction::Step(number as usize)
        } else {
            TransactionAction::Commit
        }
    }

    /// What comes after the current action, which succeeded or failed.
    pub open spec fn spec_next(self, succeeded: bool) -> Transaction {
        self.with_action(
            match self.action {
                TransactionAction::Begin => if succeeded {
                    self.step_or_commit(0)
                } else {
                    TransactionAction::Failed
                },
                TransactionAction::Step(number) => if succeeded {
                    self.step_or_commit(number + 1)
                } else {
                    TransactionAction::Abort
                },
                TransactionAction::Commit => if !succeeded {
                    TransactionAction::Abort
                } else if self.reselects {
                    TransactionAction::Reselect
                } else {
                    TransactionAction::Done
                },
                TransactionAction::Reselect => if succeeded {
                    TransactionAction::Done
                } else {
                    TransactionAction::Abort
                },
                TransactionAction::Abort => TransactionAction::Undo,
                TransactionAction::Undo => if self.reselects_undone {
                    TransactionAction::ReselectUndone
                } else {
                    TransactionAction::Failed
                },
                TransactionAction::ReselectUndone => TransactionAction::Failed,
                TransactionAction::Done => TransactionAction::Done,
                TransactionAction::Failed => TransactionAction::Failed,
            },
        )
    }

    /// What comes after the current action, which succeeded or failed.
    pub fn next(self, succeeded: bool) -> (res: Transaction)
        ensures
            res == self.spec_next(succeeded),
    {
        let action = match self.action {
            TransactionAction::Begin => if !succeeded {
                TransactionAction::Failed
            } else if self.steps > 0 {
                TransactionAction::Step(0)
            } else {
                TransactionAction::Commit
            },
            TransactionAction::Step(number) => if !succeeded {
                TransactionAction::Abort
            } else if number < self.steps && number + 1 < self.steps {
                TransactionAction::Step(number + 1)
            } else {
                TransactionAction::Commit
            },
            TransactionAction::Commit => if !succeeded {
                TransactionAction::Abort
            } else if self.reselects {
                TransactionAction::Reselect
            } else {
                TransactionAction::Done
            },
            TransactionAction::Reselect => if succeeded {
                TransactionAction::Done
            } else {
                TransactionAction::Abort
            },
            TransactionAction::Abort => TransactionAction::Undo,
            TransactionAction::Undo => if self.reselects_undone {
                TransactionAction::ReselectUndone
            } else {
                TransactionAction::Failed
            },
            TransactionAction::ReselectUndone => TransactionAction::Failed,
            TransactionAction::Done => TransactionAction::Done,
            TransactionAction::Failed => TransactionAction::Failed,
        };
        Transaction {
            steps: self.steps,
            reselects: self.reselects,
            reselects_undone: self.reselects_undone,
            action,
        }
    }
}

// ---------------------------------------------------------------------------
// What happens to the document
// ---------------------------------------------------------------------------

/// A document, as far as a transaction is concerned.
pub struct DocumentState {
    /// Whether the command group is open.
    pub open: bool,
    /// Whether the document differs from what it was.
    pub changed: bool,
}

/// What an action does to the document. A change may fail halfway; an action other than
/// a change that fails does nothing; undoing a command takes all its changes back, once
/// its group is closed.
pub open spec fn document_effect(
    action: TransactionAction,
    succeeded: bool,
    before: DocumentState,
    after: DocumentState,
) -> bool {
    match action {
        TransactionAction::Begin => after == DocumentState {
            open: before.open || succeeded,
            ..before
        },
        TransactionAction::Step(_) => after.open == before.open,
        TransactionAction::Commit | TransactionAction::Abort => after == DocumentState {
            open: before.open && !succeeded,
            ..before
        },
        TransactionAction::Undo => after == DocumentState {
            changed: before.changed && (!succeeded || before.open),
            ..before
        },
        _ => after == before,
    }
}

/// Whether action `k` was answered, and did to the document what it does.
pub open spec fn is_step(
    states: Seq<Transaction>,
    documents: Seq<DocumentState>,
    replies: Seq<bool>,
    k: int,
) -> bool {
    &&& states[k + 1] == states[k].spec_next(replies[k])
    &&& document_effect(states[k].action, replies[k], documents[k], documents[k + 1])
}

/// Whether `states` and `documents` are the course of a transaction in which the actions
/// were answered by `replies`.
pub open spec fn is_course(
    states: Seq<Transaction>,
    documents: Seq<DocumentState>,
    replies: Seq<bool>,
) -> bool {
    &&& states.len() == replies.len() + 1
    &&& documents.len() == replies.len() + 1
    &&& states[0].action == TransactionAction::Begin
    &&& !documents[0].open
    &&& !documents[0].changed
    &&& forall|k: int|
        0 <= k < replies.len() ==> #[trigger] is_step(states, documents, replies, k)
}

/// What holds in the course of a transaction; `undone` says whether closing and undoing
/// the group succeeded as far as they were tried.
spec fn transaction_holds(state: Transaction, document: DocumentState, undone: bool) -> bool {
    match state.action {
        TransactionAction::Begin => !document.open && !document.changed,
        TransactionAction::Step(_) | TransactionAction::Commit => document.open,
        TransactionAction::Reselect | TransactionAction::Done => !document.open,
        TransactionAction::Abort => true,
        TransactionAction::Undo => undone ==> !document.open,
        TransactionAction::ReselectUndone | TransactionAction::Failed => undone
            ==> !document.open && !document.changed,
    }
}

/// Whether closing and undoing the group succeeded in the first `k` actions.
pub open spec fn undo_worked(states: Seq<Transaction>, replies: Seq<bool>, k: int) -> bool {
    forall|i: int|
        0 <= i < k && ((#[trigger] states[i]).action is Abort || states[i].action is Undo)
            ==> replies[i]
}

proof fn lemma_course(
    states: Seq<Transaction>,
    documents: Seq<DocumentState>,
    replies: Seq<bool>,
    k: int,
)
    requires
        is_course(states, documents, replies),
        0 <= k <= replies.len(),
    ensures
        transaction_holds(states[k], documents[k], undo_worked(states, replies, k)),
    decreases k,
{
    if k > 0 {
        lemma_course(states, documents, replies, k - 1);
        assert(is_step(states, documents, replies, k - 1));
        if undo_worked(states, replies, k) {
            assert(undo_worked(states, replies, k - 1));
            if states[k - 1].action is Abort || states[k - 1].action is Undo {
                assert(replies[k - 1]);
            }
        }
    }
}

/// A transaction that fails leaves the document as it was, provided that closing and
/// undoing the command group work.
pub proof fn law_a_failed_transaction_changes_nothing(
    states: Seq<Transaction>,
    documents: Seq<DocumentState>,
    replies: Seq<bool>,
    k: int,
)
    requires
        is_course(states, documents, replies),
        0 <= k <= replies.len(),
        states[k].action is Failed,
        undo_worked(states, replies, k),
    ensures
        !documents[k].open,
        !documents[k].changed,
{
    lemma_course(states, documents, replies, k);
}

/// Every change is made inside the command group, and a transaction that is done has
/// closed it.
pub proof fn law_changes_are_made_inside_the_group(
    states: Seq<Transaction>,
    documents: Seq<DocumentState>,
    replies: Seq<bool>,
    k: int,
)
    requires
        is_course(states, documents, replies),
        0 <= k <= replies.len(),
    ensures
        states[k].action is Step ==> documents[k].open,
        states[k].action is Done ==> !documents[k].open,
{
    lemma_course(states, documents, replies, k);
}

/// A transaction in which nothing fails makes every change once, in order.
pub proof fn law_a_transaction_makes_every_change(start: Transaction, number: int)
    requires
        start.action is Begin,
        0 <= number <= start.steps,
    ensures
        after_successes(start, number + 1).action == start.step_or_commit(number),
        after_successes(start, number + 1).steps == start.steps,
    decreases number,
{
    if number > 0 {
        law_a_transaction_makes_every_change(start, number - 1);
    } else {
        assert(after_successes(start, 0) == start);
    }
}

/// A transaction after so many actions that succeeded.
pub open spec fn after_successes(start: Transaction, count: int) -> Transaction
    decreases count,
{
    if count <= 0 {
        start
    } else {
        after_successes(start, count - 1).spec_next(true)
    }
}

// ---------------------------------------------------------------------------
// The changes of an operation
// ---------------------------------------------------------------------------

/// A change that is made when the selection was processed.
#[derive(Debug, Clone, Copy, PartialEq, Eq, Structural)]
pub enum WriteStep {
    /// Remove what earlier runs generated for a bitmap.
    RemoveGenerated(usize),
    CreateLayer,
    /// Import the trimmed form of a bitmap in its place.
    Import(usize),
    WriteShapes,
    VerifyShapes,
    /// Group an imported bitmap with its outline.
    Group(usize),
    /// Select a group; the first one alone, the others besides.
    SelectGroup(usize),
    WriteReport,
}

/// The first `count` steps that `step` gives.
pub open spec fn steps_for(step: spec_fn(int) -> WriteStep, count: int) -> Seq<WriteStep> {
    Seq::new(count as nat, step)
}

/// The changes that are made when `count` bitmaps were processed: what was generated
/// before goes, a layer takes what is generated now, trimmed bitmaps are imported and
/// grouped with their outlines, and a report is written if one is wanted.
pub open spec fn spec_write_steps(
    operation: SelectionOperation,
    count: nat,
    report: bool,
) -> Seq<WriteStep> {
    let imports = if operation == SelectionOperation::TrimTransparent {
        count
    } else {
        0
    };
    steps_for(|k: int| WriteStep::RemoveGenerated(k as usize), count as int) + seq![
        WriteStep::CreateLayer,
    ] + steps_for(|k: int| WriteStep::Import(k as usize), imports as int) + seq![
        WriteStep::WriteShapes,
        WriteStep::VerifyShapes,
    ] + steps_for(|k: int| WriteStep::Group(k as usize), imports as int) + steps_for(
        |k: int| WriteStep::SelectGroup(k as usize),
        imports as int,
    ) + if report {
        seq![WriteStep::WriteReport]
    } else {
        Seq::empty()
    }
}

fn push_steps(steps: &mut Vec<WriteStep>, kind: WriteStep, count: usize)
    ensures
        final(steps)@ == old(steps)@ + Seq::new(
            count as nat,
            |k: int|
                match kind {
                    WriteStep::RemoveGenerated(_) => WriteStep::RemoveGenerated(k as usize),
                    WriteStep::Import(_) => WriteStep::Import(k as usize),
                    WriteStep::Group(_) => WriteStep::Group(k as usize),
                    WriteStep::SelectGroup(_) => WriteStep::SelectGroup(k as usize),
                    _ => kind,
                },
        ),
{
    let ghost before = steps@;
    let ghost goal = Seq::new(
        count as nat,
        |k: int|
            match kind {
                WriteStep::RemoveGenerated(_) => WriteStep::RemoveGenerated(k as usize),
                WriteStep::Import(_) => WriteStep::Import(k as usize),
                WriteStep::Group(_) => WriteStep::Group(k as usize),
                WriteStep::SelectGroup(_) => WriteStep::SelectGroup(k as usize),
                _ => kind,
            },
    );
    for k in 0..count
        invariant
            goal.len() == count,
            forall|i: int|
                0 <= i < count ==> #[trigger] goal[i] == match kind {
                    WriteStep::RemoveGenerated(_) => WriteStep::RemoveGenerated(i as usize),
                    WriteStep::Import(_) => WriteStep::Import(i as usize),
                    WriteStep::Group(_) => WriteStep::Group(i as usize),
                    WriteStep::SelectGroup(_) => WriteStep::SelectGroup(i as usize),
                    _ => kind,
                },
            steps@ == before + goal.take(k as int),
    {
        let step = match kind {
            WriteStep::RemoveGenerated(_) => WriteStep::RemoveGenerated(k),
            WriteStep::Import(_) => WriteStep::Import(k),
            WriteStep::Group(_) => WriteStep::Group(k),
            WriteStep::SelectGroup(_) => WriteStep::SelectGroup(k),
            WriteStep::CreateLayer => WriteStep::CreateLayer,
            WriteStep::WriteShapes => WriteStep::WriteShapes,
            WriteStep::VerifyShapes => WriteStep::VerifyShapes,
            WriteStep::WriteReport => WriteStep::WriteReport,
        };
        assert(goal[k as int] == step);
        steps.push(step);
    }
    assert(goal.take(count as int) =~= goal);
}

/// The changes that are made when `count` bitmaps were processed.
pub fn write_steps(operation: SelectionOperation, count: usize, report: bool) -> (res: Vec<
    WriteStep,
>)
    ensures
        res@ == spec_write_steps(operation, count as nat, report),
{
    let imports: usize = if operation == SelectionOperation::TrimTransparent {
        count
    } else {
        0
    };
    let mut res: Vec<WriteStep> = Vec::new();
    push_steps(&mut res, WriteStep::RemoveGenerated(0), count);
    res.push(WriteStep::CreateLayer);
    push_steps(&mut res, WriteStep::Import(0), imports);
    res.push(WriteStep::WriteShapes);
    res.push(WriteStep::VerifyShapes);
    push_steps(&mut res, WriteStep::Group(0), imports);
    push_steps(&mut res, WriteStep::SelectGroup(0), imports);
    if report {
        res.push(WriteStep::WriteReport);
    }
    assert(res@ =~= spec_write_steps(operation, count as nat, report));
    res
}

/// A change that is made when keyholes are merged with outlines.
#[derive(Debug, Clone, Copy, PartialEq, Eq, Structural)]
pub enum MergeStep {
    /// Take a curve as the base of a weld.
    Base(usize),
    /// Remove everything but the outermost ring of a keyhole.
    RetainOuterRing(usize),
    /// Weld a curve to the base.
    Weld(usize),
    /// Put the inner rings of a curve into the welded one.
    AppendInnerRings(usize),
    /// Name the welded curve.
    Name,
    /// Put the welded curve back into the group of its base.
    Regroup(usize),
    WriteReport,
}

/// The steps that weld the curves of `group` from the second one up to `end`: of a
/// keyhole only the outermost ring is welded.
pub open spec fn weld_steps(group: Seq<usize>, is_hole: Seq<bool>, end: int) -> Seq<MergeStep>
    decreases end,
{
    if end <= 1 {
        Seq::empty()
    } else {
        let curve = group[end - 1];
        let before = weld_steps(group, is_hole, end - 1);
        if is_hole[curve as int] {
            before.push(MergeStep::RetainOuterRing(curve)).push(MergeStep::Weld(curve))
        } else {
            before.push(MergeStep::Weld(curve))
        }
    }
}

/// The steps that put the inner rings of the first `end` curves of `group` into the
/// welded curve.
pub open spec fn ring_steps(group: Seq<usize>, end: int) -> Seq<MergeStep>
    decreases end,
{
    if end <= 0 {
        Seq::empty()
    } else {
        ring_steps(group, end - 1).push(MergeStep::AppendInnerRings(group[end - 1]))
    }
}

/// The steps that merge one group.
pub open spec fn group_steps(
    group: Seq<usize>,
    is_hole: Seq<bool>,
    has_parent: Seq<bool>,
) -> Seq<MergeStep> {
    seq![MergeStep::Base(group[0])] + weld_steps(group, is_hole, group.len() as int) + ring_steps(
        group,
        group.len() as int,
    ) + seq![MergeStep::Name] + if has_parent[group[0] as int] {
        seq![MergeStep::Regroup(group[0])]
    } else {
        Seq::empty()
    }
}

/// The steps that merge the first `end` groups.
pub open spec fn merge_steps_upto(
    groups: Seq<Seq<usize>>,
    is_hole: Seq<bool>,
    has_parent: Seq<bool>,
    end: int,
) -> Seq<MergeStep>
    decreases end,
{
    if end <= 0 {
        Seq::empty()
    } else {
        merge_steps_upto(groups, is_hole, has_parent, end - 1) + group_steps(
            groups[end - 1],
            is_hole,
            has_parent,
        )
    }
}

/// The changes that are made by a merge.
pub open spec fn spec_merge_steps(
    groups: Seq<Seq<usize>>,
    is_hole: Seq<bool>,
    has_parent: Seq<bool>,
    report: bool,
) -> Seq<MergeStep> {
    merge_steps_upto(groups, is_hole, has_parent, groups.len() as int) + if report {
        seq![MergeStep::WriteReport]
    } else {
        Seq::empty()
    }
}

fn push_group_steps(
    steps: &mut Vec<MergeStep>,
    group: &Vec<usize>,
    is_hole: &[bool],
    has_parent: &[bool],
)
    requires
        group@.len() > 0,
        forall|k: int| 0 <= k < group@.len() ==> #[trigger] group@[k] < is_hole@.len(),
        has_parent@.len() == is_hole@.len(),
    ensures
        final(steps)@ == old(steps)@ + group_steps(group@, is_hole@, has_parent@),
{
    let ghost before = steps@;
    let base: usize = group[0];
    steps.push(MergeStep::Base(base));
    let ghost with_base = steps@;
    assert(with_base + Seq::<MergeStep>::empty() =~= with_base);
    let mut i: usize = 1;
    while i < group.len()
        invariant
            1 <= i <= group@.len(),
            forall|k: int| 0 <= k < group@.len() ==> #[trigger] group@[k] < is_hole@.len(),
            steps@ == with_base + weld_steps(group@, is_hole@, i as int),
        decreases group@.len() - i,
    {
        let curve: usize = group[i];
        if is_hole[curve] {
            steps.push(MergeStep::RetainOuterRing(curve));
        }
        steps.push(MergeStep::Weld(curve));
        assert(steps@ =~= with_base + weld_steps(group@, is_hole@, i + 1));
        i = i + 1;
    }
    let ghost welded = steps@;
    assert(welded + Seq::<MergeStep>::empty() =~= welded);
    for k in 0..group.len()
        invariant
            steps@ == welded + ring_steps(group@, k as int),
    {
        steps.push(MergeStep::AppendInnerRings(group[k]));
        assert(steps@ =~= welded + ring_steps(group@, k + 1));
    }
    steps.push(MergeStep::Name);
    if has_parent[base] {
        steps.push(MergeStep::Regroup(base));
    }
    assert(steps@ =~= before + group_steps(group@, is_hole@, has_parent@));
}

/// The changes that are made by a merge; `has_parent` says which curves are parts of a
/// group.
pub fn merge_steps(plan: &MergePlan, is_hole: &[bool], has_parent: &[bool], report: bool) -> (res:
    Vec<MergeStep>)
    requires
        has_parent@.len() == is_hole@.len(),
        plan.is_among(is_hole@.len()),
    ensures
        res@ == spec_merge_steps(plan.spec_groups(), is_hole@, has_parent@, report),
{
    let ghost groups = plan.spec_groups();
    let mut res: Vec<MergeStep> = Vec::new();
    for g in 0..plan.groups.len()
        invariant
            groups == plan.spec_groups(),
            has_parent@.len() == is_hole@.len(),
            forall|g: int, k: int|
                0 <= g < groups.len() && 0 <= k < groups[g].len() ==> #[trigger] groups[g][k]
                    < is_hole@.len(),
            forall|g: int| 0 <= g < groups.len() ==> (#[trigger] groups[g]).len() > 0,
            res@ == merge_steps_upto(groups, is_hole@, has_parent@, g as int),
    {
        assert(groups[g as int] == plan.groups@[g as int]@);
        assert forall|k: int| 0 <= k < plan.groups@[g as int]@.len() implies
            #[trigger] plan.groups@[g as int]@[k] < is_hole@.len() by {
            assert(groups[g as int][k] < is_hole@.len());
        }
        push_group_steps(&mut res, &plan.groups[g], is_hole, has_parent);
    }
    if report {
        res.push(MergeStep::WriteReport);
    }
    assert(res@ =~= spec_merge_steps(groups, is_hole@, has_parent@, report));
    res
}

// ---------------------------------------------------------------------------
// What a merge does to its curves
// ---------------------------------------------------------------------------

/// The stages of merging a group, in order.
pub open spec fn merge_stage(step: MergeStep) -> int {
    match step {
        MergeStep::Base(_) => 0,
        MergeStep::RetainOuterRing(_) => 1,
        MergeStep::Weld(_) => 1,
        MergeStep::AppendInnerRings(_) => 2,
        MergeStep::Name => 3,
        MergeStep::Regroup(_) => 4,
        MergeStep::WriteReport => 5,
    }
}

/// The curve that a step is about.
pub open spec fn curve_of(step: MergeStep) -> Option<usize> {
    match step {
        MergeStep::Base(curve) => Some(curve),
        MergeStep::RetainOuterRing(curve) => Some(curve),
        MergeStep::Weld(curve) => Some(curve),
        MergeStep::AppendInnerRings(curve) => Some(curve),
        MergeStep::Regroup(curve) => Some(curve),
        _ => None,
    }
}

proof fn lemma_weld_steps(group: Seq<usize>, is_hole: Seq<bool>, end: int)
    requires
        group.no_duplicates(),
        end <= group.len(),
    ensures
        ({
            let steps = weld_steps(group, is_hole, end);
            &&& forall|i: int|
                0 <= i < steps.len() ==> (#[trigger] steps[i]) is Weld
                    || steps[i] is RetainOuterRing
            &&& forall|i: int|
                0 <= i < steps.len() ==> ((#[trigger] steps[i]) matches MergeStep::Weld(curve)
                    ==> exists|k: int| 1 <= k < end && #[trigger] group[k] == curve)
            &&& forall|i: int|
                0 <= i < steps.len() ==> ((#[trigger] steps[i]) matches MergeStep::RetainOuterRing(
                    curve,
                ) ==> {
                    &&& exists|k: int| 1 <= k < end && #[trigger] group[k] == curve
                    &&& is_hole[curve as int]
                    &&& i + 1 < steps.len()
                    &&& steps[i + 1] == MergeStep::Weld(curve)
                })
            &&& forall|k: int|
                1 <= k < end ==> steps.contains(MergeStep::Weld(#[trigger] group[k]))
            &&& forall|k: int|
                1 <= k < end && is_hole[#[trigger] group[k] as int] ==> steps.contains(
                    MergeStep::RetainOuterRing(group[k]),
                )
            &&& steps.no_duplicates()
        }),
    decreases end,
{
    if end > 1 {
        lemma_weld_steps(group, is_hole, end - 1);
        let before = weld_steps(group, is_hole, end - 1);
        let steps = weld_steps(group, is_hole, end);
        let curve = group[end - 1];
        let count = before.len() as int;
        assert forall|i: int| 0 <= i < count implies #[trigger] steps[i] == before[i] by {}
        assert(steps[steps.len() - 1] == MergeStep::Weld(curve));
        assert forall|k: int| 1 <= k < end implies steps.contains(
            MergeStep::Weld(#[trigger] group[k]),
        ) by {
            if k < end - 1 {
                let i = choose|i: int| 0 <= i < count && before[i] == MergeStep::Weld(group[k]);
                assert(steps[i] == MergeStep::Weld(group[k]));
            }
        }
        assert forall|k: int| 1 <= k < end && is_hole[#[trigger] group[k] as int] implies steps.contains(
            MergeStep::RetainOuterRing(group[k]),
        ) by {
            if k < end - 1 {
                assert(before.contains(MergeStep::RetainOuterRing(group[k])));
                let i = choose|i: int|
                    0 <= i < count && before[i] == MergeStep::RetainOuterRing(group[k]);
                assert(steps[i] == MergeStep::RetainOuterRing(group[k]));
            } else {
                assert(steps[count] == MergeStep::RetainOuterRing(group[k]));
            }
        }
        assert forall|i: int| 0 <= i < steps.len() implies ((
        #[trigger] steps[i]) matches MergeStep::Weld(c) ==> exists|k: int|
            1 <= k < end && #[trigger] group[k] == c) by {
            if i < count {
                assert(steps[i] == before[i]);
            } else {
                assert(group[end - 1] == curve);
            }
        }
        assert forall|i: int| 0 <= i < steps.len() implies ((
        #[trigger] steps[i]) matches MergeStep::RetainOuterRing(c) ==> {
            &&& exists|k: int| 1 <= k < end && #[trigger] group[k] == c
            &&& is_hole[c as int]
            &&& i + 1 < steps.len()
            &&& steps[i + 1] == MergeStep::Weld(c)
        }) by {
            if i < count {
                assert(steps[i] == before[i]);
                if i + 1 < count {
                    assert(steps[i + 1] == before[i + 1]);
                }
            } else {
                assert(group[end - 1] == curve);
            }
        }
        assert forall|i: int, j: int|
            0 <= i < steps.len() && 0 <= j < steps.len() && i != j implies steps[i] != steps[j] by {
            if i < count && j < count {
                assert(before[i] != before[j]);
            } else if i < count || j < count {
                let (old_at, new_at) = if i < count {
                    (i, j)
                } else {
                    (j, i)
                };
                assert(curve_of(steps[new_at]) == Some(curve));
                assert(steps[old_at] == before[old_at]);
                let k = choose|k: int|
                    1 <= k < end - 1 && #[trigger] group[k] == curve_of(before[old_at]).unwrap();
                assert(group[k] != group[end - 1]);
            }
        }
    }
}

proof fn lemma_ring_steps(group: Seq<usize>, end: int)
    requires
        0 <= end <= group.len(),
    ensures
        ring_steps(group, end).len() == end,
        forall|k: int|
            0 <= k < end ==> #[trigger] ring_steps(group, end)[k] == MergeStep::AppendInnerRings(
                group[k],
            ),
    decreases end,
{
    if end > 0 {
        lemma_ring_steps(group, end - 1);
    }
}

/// Merging a group takes its first curve as the base and welds every other one to it once;
/// of a keyhole, and of nothing else, only the outermost ring is welded. Behind all welds
/// every curve of the group, the base included, gives its inner rings back, once, in the
/// order of the group. Then the result is named, and put back into the group of its base if
/// that has one. Nothing else is done.
pub proof fn law_a_merged_group_keeps_its_rings(
    group: Seq<usize>,
    is_hole: Seq<bool>,
    has_parent: Seq<bool>,
)
    requires
        group.len() > 0,
        group.no_duplicates(),
    ensures
        ({
            let steps = group_steps(group, is_hole, has_parent);
            &&& steps.no_duplicates()
            &&& forall|i: int, j: int|
                0 <= i < j < steps.len() ==> merge_stage(#[trigger] steps[i]) <= merge_stage(
                    #[trigger] steps[j],
                )
            &&& forall|curve: usize|
                #[trigger] steps.contains(MergeStep::Base(curve)) <==> curve == group[0]
            &&& forall|curve: usize|
                #[trigger] steps.contains(MergeStep::Weld(curve)) <==> group.contains(curve)
                    && curve != group[0]
            &&& forall|curve: usize|
                #[trigger] steps.contains(MergeStep::RetainOuterRing(curve)) <==> group.contains(
                    curve,
                ) && curve != group[0] && is_hole[curve as int]
            &&& forall|i: int|
                0 <= i < steps.len() ==> ((#[trigger] steps[i]) matches MergeStep::RetainOuterRing(
                    curve,
                ) ==> i + 1 < steps.len() && steps[i + 1] == MergeStep::Weld(curve))
            &&& forall|curve: usize|
                #[trigger] steps.contains(MergeStep::AppendInnerRings(curve)) <==> group.contains(
                    curve,
                )
            &&& forall|i: int, j: int, a: int, b: int|
                0 <= i < j < steps.len() && 0 <= a < group.len() && 0 <= b < group.len()
                    && #[trigger] steps[i] == MergeStep::AppendInnerRings(#[trigger] group[a])
                    && #[trigger] steps[j] == MergeStep::AppendInnerRings(#[trigger] group[b])
                    ==> a < b
            &&& steps.contains(MergeStep::Name)
            &&& forall|curve: usize|
                #[trigger] steps.contains(MergeStep::Regroup(curve)) <==> curve == group[0]
                    && has_parent[curve as int]
            &&& !steps.contains(MergeStep::WriteReport)
        }),
{
    let count = group.len() as int;
    let base = seq![MergeStep::Base(group[0])];
    let welds = weld_steps(group, is_hole, count);
    let rings = ring_steps(group, count);
    let name = seq![MergeStep::Name];
    let back = if has_parent[group[0] as int] {
        seq![MergeStep::Regroup(group[0])]
    } else {
        Seq::<MergeStep>::empty()
    };
    let steps = group_steps(group, is_hole, has_parent);
    assert(steps =~= base + welds + rings + name + back);
    lemma_weld_steps(group, is_hole, count);
    lemma_ring_steps(group, count);
    let w = 1 + welds.len();
    let r = w + count;
    assert forall|i: int| 1 <= i < w implies #[trigger] steps[i] == welds[i - 1] by {}
    assert forall|i: int| w <= i < r implies #[trigger] steps[i] == MergeStep::AppendInnerRings(
        group[i - w],
    ) by {
        assert(steps[i] == rings[i - w]);
    }
    assert(steps[0] == MergeStep::Base(group[0]));
    assert(steps[r as int] == MergeStep::Name);
    assert(back.len() > 0 ==> steps[r + 1] == MergeStep::Regroup(group[0]));
    assert(steps.len() == r + 1 + back.len());
    assert forall|i: int, j: int| 0 <= i < steps.len() && 0 <= j < steps.len() && i != j implies steps[i]
        != steps[j] by {
        if 1 <= i < w && 1 <= j < w {
            assert(welds[i - 1] != welds[j - 1]);
        }
        if w <= i < r && w <= j < r {
            assert(group[i - w] != group[j - w]);
        }
    }
    assert forall|curve: usize|
        #[trigger] steps.contains(MergeStep::Weld(curve)) <==> group.contains(curve) && curve
            != group[0] by {
        if steps.contains(MergeStep::Weld(curve)) {
            let i = choose|i: int| 0 <= i < steps.len() && steps[i] == MergeStep::Weld(curve);
            assert(1 <= i < w);
            assert(steps[i] == welds[i - 1]);
            let k = choose|k: int| 1 <= k < count && #[trigger] group[k] == curve;
            assert(group[k] != group[0]);
        }
        if group.contains(curve) && curve != group[0] {
            let k = choose|k: int| 0 <= k < count && group[k] == curve;
            assert(welds.contains(MergeStep::Weld(group[k])));
            let i = choose|i: int| 0 <= i < welds.len() && welds[i] == MergeStep::Weld(curve);
            assert(steps[i + 1] == MergeStep::Weld(curve));
        }
    }
    assert forall|curve: usize|
        #[trigger] steps.contains(MergeStep::RetainOuterRing(curve)) <==> group.contains(curve)
            && curve != group[0] && is_hole[curve as int] by {
        if steps.contains(MergeStep::RetainOuterRing(curve)) {
            let i = choose|i: int|
                0 <= i < steps.len() && steps[i] == MergeStep::RetainOuterRing(curve);
            assert(1 <= i < w);
            assert(steps[i] == welds[i - 1]);
            let k = choose|k: int| 1 <= k < count && #[trigger] group[k] == curve;
            assert(group[k] != group[0]);
        }
        if group.contains(curve) && curve != group[0] && is_hole[curve as int] {
            let k = choose|k: int| 0 <= k < count && group[k] == curve;
            assert(welds.contains(MergeStep::RetainOuterRing(group[k])));
            let i = choose|i: int|
                0 <= i < welds.len() && welds[i] == MergeStep::RetainOuterRing(curve);
            assert(steps[i + 1] == MergeStep::RetainOuterRing(curve));
        }
    }
    assert forall|i: int| 0 <= i < steps.len() implies ((
    #[trigger] steps[i]) matches MergeStep::RetainOuterRing(curve) ==> i + 1 < steps.len()
        && steps[i + 1] == MergeStep::Weld(curve)) by {
        if steps[i] is RetainOuterRing {
            assert(1 <= i < w);
            assert(steps[i] == welds[i - 1]);
            assert(steps[i + 1] == welds[i]);
        }
    }
    assert forall|curve: usize|
        #[trigger] steps.contains(MergeStep::AppendInnerRings(curve)) <==> group.contains(
            curve,
        ) by {
        if group.contains(curve) {
            let k = choose|k: int| 0 <= k < count && group[k] == curve;
            assert(steps[w + k] == MergeStep::AppendInnerRings(curve));
        }
    }
}

proof fn lemma_steps_of_groups(
    groups: Seq<Seq<usize>>,
    is_hole: Seq<bool>,
    has_parent: Seq<bool>,
    end: int,
    i: int,
)
    requires
        0 <= end <= groups.len(),
        forall|g: int|
            0 <= g < groups.len() ==> (#[trigger] groups[g]).len() > 0
                && groups[g].no_duplicates(),
        0 <= i < merge_steps_upto(groups, is_hole, has_parent, end).len(),
    ensures
        ({
            let step = merge_steps_upto(groups, is_hole, has_parent, end)[i];
            &&& !(step is WriteReport)
            &&& curve_of(step) matches Some(curve) ==> exists|g: int|
                0 <= g < end && (#[trigger] groups[g]).contains(curve)
        }),
    decreases end,
{
    let before = merge_steps_upto(groups, is_hole, has_parent, end - 1);
    if end > 0 && i < before.len() {
        lemma_steps_of_groups(groups, is_hole, has_parent, end - 1, i);
    } else if end > 0 {
        let group = groups[end - 1];
        let own = group_steps(group, is_hole, has_parent);
        law_a_merged_group_keeps_its_rings(group, is_hole, has_parent);
        let step = own[i - before.len()];
        assert(own.contains(step));
        assert(group.contains(group[0]));
        assert(groups[end - 1].contains(group[0]));
    }
}

proof fn lemma_steps_start_with(
    groups: Seq<Seq<usize>>,
    is_hole: Seq<bool>,
    has_parent: Seq<bool>,
    g: int,
    end: int,
)
    requires
        0 <= g < end <= groups.len(),
    ensures
        ({
            let all = merge_steps_upto(groups, is_hole, has_parent, end);
            let start = merge_steps_upto(groups, is_hole, has_parent, g).len() as int;
            let own = group_steps(groups[g], is_hole, has_parent);
            &&& start + own.len() <= all.len()
            &&& all.subrange(start, start + own.len()) == own
        }),
    decreases end,
{
    let all = merge_steps_upto(groups, is_hole, has_parent, end);
    let before = merge_steps_upto(groups, is_hole, has_parent, end - 1);
    let start = merge_steps_upto(groups, is_hole, has_parent, g).len() as int;
    let own = group_steps(groups[g], is_hole, has_parent);
    if g < end - 1 {
        lemma_steps_start_with(groups, is_hole, has_parent, g, end - 1);
        assert(all.subrange(start, start + own.len()) =~= before.subrange(
            start,
            start + own.len(),
        ));
    } else {
        assert(all.subrange(start, start + own.len()) =~= own);
    }
}

proof fn lemma_later_steps(
    groups: Seq<Seq<usize>>,
    is_hole: Seq<bool>,
    has_parent: Seq<bool>,
    g: int,
    end: int,
    i: int,
)
    requires
        0 <= g < end <= groups.len(),
        forall|g: int|
            0 <= g < groups.len() ==> (#[trigger] groups[g]).len() > 0
                && groups[g].no_duplicates(),
        merge_steps_upto(groups, is_hole, has_parent, g + 1).len() <= i < merge_steps_upto(
            groups,
            is_hole,
            has_parent,
            end,
        ).len(),
    ensures
        curve_of(merge_steps_upto(groups, is_hole, has_parent, end)[i]) matches Some(curve)
            ==> exists|h: int| g < h < end && (#[trigger] groups[h]).contains(curve),
    decreases end,
{
    let before = merge_steps_upto(groups, is_hole, has_parent, end - 1);
    if i < before.len() {
        lemma_later_steps(groups, is_hole, has_parent, g, end - 1, i);
    } else {
        let group = groups[end - 1];
        let own = group_steps(group, is_hole, has_parent);
        law_a_merged_group_keeps_its_rings(group, is_hole, has_parent);
        assert(own.contains(own[i - before.len()]));
        assert(group.contains(group[0]));
        assert(g < end - 1);
        assert(groups[end - 1].contains(group[0]));
    }
}

/// The steps of a merge hold the steps of each group in one piece, and no other step is
/// about a curve of that group. A report is written in the end, exactly if one is wanted.
pub proof fn law_groups_are_merged_one_by_one(
    groups: Seq<Seq<usize>>,
    is_hole: Seq<bool>,
    has_parent: Seq<bool>,
    report: bool,
    g: int,
) -> (start: int)
    requires
        0 <= g < groups.len(),
        forall|g: int|
            0 <= g < groups.len() ==> (#[trigger] groups[g]).len() > 0
                && groups[g].no_duplicates(),
        forall|g: int, h: int, curve: usize|
            0 <= g < groups.len() && 0 <= h < groups.len() && #[trigger] groups[g].contains(curve)
                && #[trigger] groups[h].contains(curve) ==> g == h,
    ensures
        ({
            let steps = spec_merge_steps(groups, is_hole, has_parent, report);
            let own = group_steps(groups[g], is_hole, has_parent);
            &&& 0 <= start <= start + own.len() <= steps.len()
            &&& steps.subrange(start, start + own.len()) == own
            &&& forall|i: int|
                (0 <= i < start || start + own.len() <= i < steps.len()) ==> (curve_of(
                    #[trigger] steps[i],
                ) matches Some(curve) ==> !groups[g].contains(curve))
            &&& forall|i: int|
                0 <= i < steps.len() ==> ((#[trigger] steps[i]) is WriteReport <==> report && i
                    == steps.len() - 1)
        }),
{
    let count = groups.len() as int;
    let all = merge_steps_upto(groups, is_hole, has_parent, count);
    let steps = spec_merge_steps(groups, is_hole, has_parent, report);
    let before = merge_steps_upto(groups, is_hole, has_parent, g);
    let own = group_steps(groups[g], is_hole, has_parent);
    let start = before.len() as int;
    lemma_steps_start_with(groups, is_hole, has_parent, g, count);
    assert(steps.subrange(start, start + own.len()) =~= own);
    assert forall|i: int| 0 <= i < all.len() implies #[trigger] steps[i] == all[i] by {}
    assert forall|i: int|
        (0 <= i < start || start + own.len() <= i < steps.len()) implies (curve_of(
        #[trigger] steps[i],
    ) matches Some(curve) ==> !groups[g].contains(curve)) by {
        if i < start {
            lemma_steps_prefix(groups, is_hole, has_parent, g, count);
            assert(steps[i] == before[i]);
            lemma_steps_of_groups(groups, is_hole, has_parent, g, i);
        } else if i < all.len() {
            lemma_later_steps(groups, is_hole, has_parent, g, count, i);
        }
    }
    assert forall|i: int| 0 <= i < steps.len() implies ((#[trigger] steps[i]) is WriteReport
        <==> report && i == steps.len() - 1) by {
        if i < all.len() {
            lemma_steps_of_groups(groups, is_hole, has_parent, count, i);
        }
    }
    start
}

proof fn lemma_steps_prefix(
    groups: Seq<Seq<usize>>,
    is_hole: Seq<bool>,
    has_parent: Seq<bool>,
    from: int,
    to: int,
)
    requires
        0 <= from <= to,
    ensures
        ({
            let short = merge_steps_upto(groups, is_hole, has_parent, from);
            let long = merge_steps_upto(groups, is_hole, has_parent, to);
            short.len() <= long.len() && forall|i: int|
                0 <= i < short.len() ==> #[trigger] long[i] == short[i]
        }),
    decreases to - from,
{
    if from < to {
        lemma_steps_prefix(groups, is_hole, has_parent, from, to - 1);
    }
}

/// Every curve of a group that is merged, and so every keyhole of which only the outermost
/// ring was welded, gives its inner rings to the welded curve: once, behind all welds of its
/// group, and before that curve is named.
pub proof fn law_every_keyhole_keeps_its_opening(
    is_hole: Seq<bool>,
    touching: Seq<bool>,
    has_parent: Seq<bool>,
    report: bool,
    g: int,
    curve: usize,
)
    requires
        is_hole.len() <= usize::MAX,
        0 <= g < merge_groups(is_hole, touching).len(),
        merge_groups(is_hole, touching)[g].contains(curve),
    ensures
        ({
            let groups = merge_groups(is_hole, touching);
            let steps = spec_merge_steps(groups, is_hole, has_parent, report);
            exists|at: int, name: int|
                #![trigger steps[at], steps[name]]
                {
                    &&& 0 <= at < name < steps.len()
                    &&& steps[at] == MergeStep::AppendInnerRings(curve)
                    &&& steps[name] == MergeStep::Name
                    &&& forall|i: int|
                        0 <= i < steps.len() && #[trigger] steps[i] == MergeStep::AppendInnerRings(
                            curve,
                        ) ==> i == at
                    &&& forall|i: int|
                        at <= i < name ==> (#[trigger] steps[i]) is AppendInnerRings
                    &&& forall|i: int, other: usize|
                        0 <= i < steps.len() && #[trigger] groups[g].contains(other)
                            && #[trigger] steps[i] == MergeStep::Weld(other) ==> i < at
                }
        }),
{
    let groups = merge_groups(is_hole, touching);
    law_groups_are_components(is_hole, touching);
    assert forall|h: int| 0 <= h < groups.len() implies (#[trigger] groups[h]).len() > 0
        && groups[h].no_duplicates() by {
        law_a_group_is_outlines_and_holes(is_hole, touching, h);
    }
    let group = groups[g];
    let steps = spec_merge_steps(groups, is_hole, has_parent, report);
    let own = group_steps(group, is_hole, has_parent);
    let start = law_groups_are_merged_one_by_one(groups, is_hole, has_parent, report, g);
    law_a_merged_group_keeps_its_rings(group, is_hole, has_parent);
    assert(own.contains(MergeStep::AppendInnerRings(curve)));
    let a = choose|a: int| 0 <= a < own.len() && own[a] == MergeStep::AppendInnerRings(curve);
    let n = choose|n: int| 0 <= n < own.len() && own[n] == MergeStep::Name;
    let at = start + a;
    let name = start + n;
    assert forall|i: int| 0 <= i < own.len() implies #[trigger] own[i] == steps[start + i] by {
        assert(steps.subrange(start, start + own.len())[i] == steps[start + i]);
    }
    assert(a < n) by {
        if n < a {
            assert(merge_stage(own[n]) <= merge_stage(own[a]));
        }
    }
    assert(steps[at] == own[a] && steps[name] == own[n]);
    assert forall|i: int|
        0 <= i < steps.len() && #[trigger] steps[i] == MergeStep::AppendInnerRings(curve) implies i
        == at by {
        if start <= i < start + own.len() {
            assert(own[i - start] == steps[i]);
            if i != at {
                assert(own[i - start] != own[a]);
            }
        } else {
            assert(curve_of(steps[i]) == Some(curve));
        }
    }
    assert forall|i: int| at <= i < name implies (#[trigger] steps[i]) is AppendInnerRings by {
        let k = i - start;
        assert(own[k] == steps[i]);
        if k > a {
            assert(merge_stage(own[a]) <= merge_stage(own[k]));
            assert(merge_stage(own[k]) <= merge_stage(own[n]));
            assert(own[k] != own[n]);
        }
    }
    assert forall|i: int, other: usize|
        0 <= i < steps.len() && #[trigger] groups[g].contains(other) && #[trigger] steps[i]
            == MergeStep::Weld(other) implies i < at by {
        if start <= i < start + own.len() {
            let k = i - start;
            assert(own[k] == steps[i]);
            if k > a {
                assert(merge_stage(own[a]) <= merge_stage(own[k]));
            }
        } else {
            assert(curve_of(steps[i]) == Some(other));
        }
    }
}

// ---------------------------------------------------------------------------
// What is written
// ---------------------------------------------------------------------------

/// The stages of writing what was generated, in order.
pub open spec fn write_stage(step: WriteStep) -> int {
    match step {
        WriteStep::RemoveGenerated(_) => 0,
        WriteStep::CreateLayer => 1,
        WriteStep::Import(_) => 2,
        WriteStep::WriteShapes => 3,
        WriteStep::VerifyShapes => 4,
        WriteStep::Group(_) => 5,
        WriteStep::SelectGroup(_) => 6,
        WriteStep::WriteReport => 7,
    }
}

/// What was generated before goes for every bitmap, then the layer is made, then shapes are
/// written and held against what was to be drawn. Bitmaps are imported and grouped with their
/// outlines only where they are trimmed, and then all of them. A report comes last, if one is
/// wanted. Every step is taken once.
pub proof fn law_writing_takes_every_step_in_order(
    operation: SelectionOperation,
    count: nat,
    report: bool,
)
    requires
        count <= usize::MAX,
    ensures
        ({
            let steps = spec_write_steps(operation, count, report);
            let trims = operation == SelectionOperation::TrimTransparent;
            &&& steps.no_duplicates()
            &&& forall|i: int, j: int|
                0 <= i < j < steps.len() ==> write_stage(#[trigger] steps[i]) <= write_stage(
                    #[trigger] steps[j],
                )
            &&& forall|k: usize|
                #[trigger] steps.contains(WriteStep::RemoveGenerated(k)) <==> k < count
            &&& steps.contains(WriteStep::CreateLayer)
            &&& forall|k: usize|
                #[trigger] steps.contains(WriteStep::Import(k)) <==> trims && k < count
            &&& steps.contains(WriteStep::WriteShapes)
            &&& steps.contains(WriteStep::VerifyShapes)
            &&& forall|k: usize|
                #[trigger] steps.contains(WriteStep::Group(k)) <==> trims && k < count
            &&& forall|k: usize|
                #[trigger] steps.contains(WriteStep::SelectGroup(k)) <==> trims && k < count
            &&& steps.contains(WriteStep::WriteReport) <==> report
        }),
{
    let imports = if operation == SelectionOperation::TrimTransparent {
        count as int
    } else {
        0
    };
    lemma_write_steps_are(operation, count, report);
    lemma_steps_are_in_order(
        spec_write_steps(operation, count, report),
        count as int,
        imports,
        report,
    );
}

/// Whether `steps` are those that are taken for `n` bitmaps, `m` of which are imported.
spec fn are_write_steps(steps: Seq<WriteStep>, n: int, m: int, report: bool) -> bool {
    let a = n + 1 + m;
    let b = a + 2 + m;
    &&& forall|i: int| 0 <= i < n ==> #[trigger] steps[i] == WriteStep::RemoveGenerated(i as usize)
    &&& steps[n] == WriteStep::CreateLayer
    &&& forall|i: int|
        n + 1 <= i < a ==> #[trigger] steps[i] == WriteStep::Import((i - n - 1) as usize)
    &&& steps[a] == WriteStep::WriteShapes
    &&& steps[a + 1] == WriteStep::VerifyShapes
    &&& forall|i: int|
        a + 2 <= i < b ==> #[trigger] steps[i] == WriteStep::Group((i - a - 2) as usize)
    &&& forall|i: int|
        b <= i < b + m ==> #[trigger] steps[i] == WriteStep::SelectGroup((i - b) as usize)
    &&& report ==> steps[b + m] == WriteStep::WriteReport
    &&& steps.len() == b + m + if report {
        1int
    } else {
        0int
    }
}

proof fn lemma_write_steps_are(operation: SelectionOperation, count: nat, report: bool)
    ensures
        are_write_steps(
            spec_write_steps(operation, count, report),
            count as int,
            if operation == SelectionOperation::TrimTransparent {
                count as int
            } else {
                0
            },
            report,
        ),
{
}

proof fn lemma_steps_are_in_order(steps: Seq<WriteStep>, n: int, m: int, report: bool)
    requires
        are_write_steps(steps, n, m, report),
        0 <= n <= usize::MAX,
        0 <= m <= n,
    ensures
        steps.no_duplicates(),
        forall|i: int, j: int|
            0 <= i < j < steps.len() ==> write_stage(#[trigger] steps[i]) <= write_stage(
                #[trigger] steps[j],
            ),
        forall|k: usize| #[trigger] steps.contains(WriteStep::RemoveGenerated(k)) <==> k < n,
        steps.contains(WriteStep::CreateLayer),
        forall|k: usize| #[trigger] steps.contains(WriteStep::Import(k)) <==> k < m,
        steps.contains(WriteStep::WriteShapes),
        steps.contains(WriteStep::VerifyShapes),
        forall|k: usize| #[trigger] steps.contains(WriteStep::Group(k)) <==> k < m,
        forall|k: usize| #[trigger] steps.contains(WriteStep::SelectGroup(k)) <==> k < m,
        steps.contains(WriteStep::WriteReport) <==> report,
{
    let a = n + 1 + m;
    let b = a + 2 + m;
    assert(steps[n] == WriteStep::CreateLayer);
    assert(steps[a] == WriteStep::WriteShapes);
    assert(steps[a + 1] == WriteStep::VerifyShapes);
    assert(report ==> steps[b + m] == WriteStep::WriteReport);
    assert forall|k: usize| #[trigger]
        steps.contains(WriteStep::RemoveGenerated(k)) <==> k < n by {
        if k < n {
            assert(steps[k as int] == WriteStep::RemoveGenerated(k));
        }
    }
    assert forall|k: usize| #[trigger] steps.contains(WriteStep::Import(k)) <==> k < m by {
        if k < m {
            assert(steps[n + 1 + k] == WriteStep::Import(k));
        }
    }
    assert forall|k: usize| #[trigger] steps.contains(WriteStep::Group(k)) <==> k < m by {
        if k < m {
            assert(steps[a + 2 + k] == WriteStep::Group(k));
        }
    }
    assert forall|k: usize| #[trigger] steps.contains(WriteStep::SelectGroup(k)) <==> k < m by {
        if k < m {
            assert(steps[b + k] == WriteStep::SelectGroup(k));
        }
    }
}

// ---------------------------------------------------------------------------
// No change is left out
// ---------------------------------------------------------------------------

/// A transaction in which nothing fails makes its changes from the first to the last, none left
/// out and none made twice, closes the group only then, selects what was selected if that is
/// wanted, and is done.
pub proof fn law_no_change_is_left_out(
    steps: usize,
    reselects: bool,
    reselects_undone: bool,
    number: int,
)
    requires
        0 <= number < steps,
    ensures
        ({
            let start = Transaction::spec_start(steps, reselects, reselects_undone);
            &&& start.action == TransactionAction::Begin
            &&& after_successes(start, number + 1).action == TransactionAction::Step(
                number as usize,
            )
            &&& after_successes(start, steps + 1).action == TransactionAction::Commit
            &&& reselects ==> after_successes(start, steps + 2).action
                == TransactionAction::Reselect && after_successes(start, steps + 3).action
                == TransactionAction::Done
            &&& !reselects ==> after_successes(start, steps + 2).action == TransactionAction::Done
        }),
{
    let start = Transaction::spec_start(steps, reselects, reselects_undone);
    lemma_after_successes(start, number);
    lemma_after_successes(start, steps as int);
    assert(after_successes(start, steps + 2) == after_successes(start, steps + 1).spec_next(true));
    assert(after_successes(start, steps + 3) == after_successes(start, steps + 2).spec_next(true));
}

proof fn lemma_after_successes(start: Transaction, number: int)
    requires
        start.action is Begin,
        0 <= number <= start.steps,
    ensures
        after_successes(start, number + 1) == start.with_action(
            if number < start.steps {
                TransactionAction::Step(number as usize)
            } else {
                TransactionAction::Commit
            },
        ),
    decreases number,
{
    if number > 0 {
        lemma_after_successes(start, number - 1);
        assert(after_successes(start, number + 1) == after_successes(start, number).spec_next(
            true,
        ));
    } else {
        assert(after_successes(start, 0) == start);
        assert(after_successes(start, 1) == start.spec_next(true));
    }
}

/// When a change, closing the group or selecting fails, the group is closed and undone, whatever
/// comes of that, what was selected is selected again if that is wanted, and the transaction has
/// failed. Where the group could not be opened, nothing is to be undone.
pub proof fn law_what_fails_is_undone(state: Transaction, closed: bool, undone: bool, last: bool)
    requires
        state.action is Step || state.action is Commit || state.action is Reselect,
    ensures
        ({
            let aborted = state.spec_next(false);
            let undo = aborted.spec_next(closed);
            let after = undo.spec_next(undone);
            &&& aborted.action == TransactionAction::Abort
            &&& undo.action == TransactionAction::Undo
            &&& state.reselects_undone ==> after.action == TransactionAction::ReselectUndone
                && after.spec_next(last).action == TransactionAction::Failed
            &&& !state.reselects_undone ==> after.action == TransactionAction::Failed
        }),
        state.with_action(TransactionAction::Begin).spec_next(false).action
            == TransactionAction::Failed,
{
}

} // verus!
