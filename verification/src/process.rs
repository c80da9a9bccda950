//! The course of processing the selection.
//!
//! What is selected is read and checked object by object, and what is to be drawn is
//! worked out bitmap by bitmap. The document is changed only after that.

use vstd::prelude::*;

use crate::first_met::FirstMet;
use crate::measure::{is_same, same};
use crate::names::SelectionOperation;
use crate::selection::{
    check_exported_bitmap, check_selected, check_sources, spec_source_id, transform_error,
    validate_selected_bitmap_transform, BitmapTransform, ProcessingSettings, SelectionError,
    SelectionRun,
};
use crate::text::decimal_int;

verus! {

/// What is done next.
#[derive(Debug, Clone, Copy, PartialEq, Eq, Structural)]
pub enum ProcessAction {
    /// Count what is selected.
    CountSelection,
    /// Merge the selected curves.
    Merge,
    /// Read the selected object with that number; the first one has number one.
    ReadSource(i32),
    /// Read how the bitmap in that place stands on its page.
    ReadBitmap(usize),
    /// Export the bitmap in that place, and look at its pixels.
    ExportBitmap(usize),
    /// Trace the outline of the bitmap in that place.
    Trace(usize),
    /// Place the hole of the bitmap in that place.
    PlaceHole(usize),
    /// Find a name for the layer that takes what is drawn.
    NameLayer,
    /// Change the document.
    Write,
    /// The document is changed.
    Done,
    /// The selection was not processed.
    Failed(ProcessFault),
}

/// Why the selection was not processed.
#[derive(Debug, Clone, Copy, PartialEq, Eq, Structural)]
pub enum ProcessFault {
    /// It was refused.
    Refused(SelectionError),
    /// Something that was done failed.
    Outside,
}

/// What came of what was done.
#[derive(Debug, Clone, Copy, PartialEq, Eq, Structural)]
pub enum ProcessEvent {
    /// It failed.
    Failed,
    /// It succeeded.
    Succeeded,
    /// So many objects are selected.
    Selected(i32),
    /// The object means the bitmap with that number, or none.
    Source(Option<i32>),
    /// The object means the bitmap with that number, and there is none.
    MissingSource(i32),
    /// The bitmap stands on its page like this.
    Placed { transform: BitmapTransform, cropped: bool },
    /// The picture of the bitmap has that size, where another may be expected.
    Exported {
        expected_width: u32,
        expected_height: u32,
        width: u32,
        height: u32,
        has_transparent_edge: bool,
    },
    /// There is no name left.
    NoName,
}

/// The processing of a selection.
pub struct Processing {
    pub settings: ProcessingSettings,
    pub operation: SelectionOperation,
    /// How many objects are selected.
    pub selected_count: i32,
    /// The bitmaps that they mean.
    pub sources: FirstMet,
    /// What became of the bitmaps.
    pub run: SelectionRun,
    pub action: ProcessAction,
}

/// The processing of a selection, by its content.
pub struct SpecProcessing {
    pub settings: ProcessingSettings,
    pub operation: SelectionOperation,
    pub selected_count: int,
    pub sources: Seq<i32>,
    /// The bitmaps that something is drawn for.
    pub processed: Seq<i32>,
    /// What they are called in reports.
    pub paths: Seq<Seq<char>>,
    /// The bitmaps that are skipped.
    pub skipped: Seq<Seq<char>>,
    pub action: ProcessAction,
}

impl SpecProcessing {
    pub open spec fn with_action(self, action: ProcessAction) -> SpecProcessing {
        SpecProcessing { action, ..self }
    }

    pub open spec fn refused(self, error: SelectionError) -> SpecProcessing {
        self.with_action(ProcessAction::Failed(ProcessFault::Refused(error)))
    }

    pub open spec fn failed(self) -> SpecProcessing {
        self.with_action(ProcessAction::Failed(ProcessFault::Outside))
    }

    /// What comes when the objects up to that number were read.
    pub open spec fn after_source(self, number: int) -> SpecProcessing {
        if number < self.selected_count {
            self.with_action(ProcessAction::ReadSource((number + 1) as i32))
        } else if self.sources.len() > 0 {
            self.with_action(ProcessAction::ReadBitmap(0))
        } else if self.operation == SelectionOperation::AddHoles {
            self.refused(SelectionError::NoHoleSource)
        } else {
            self.refused(SelectionError::NoBitmap)
        }
    }

    /// What comes when the bitmap in that place is finished.
    pub open spec fn after_bitmap(self, place: int) -> SpecProcessing {
        if place + 1 < self.sources.len() {
            self.with_action(ProcessAction::ReadBitmap((place + 1) as usize))
        } else if self.processed.len() > 0 {
            self.with_action(ProcessAction::NameLayer)
        } else {
            self.refused(SelectionError::NothingToDo)
        }
    }

    /// The bitmap in that place is processed.
    pub open spec fn processed_at(self, place: int) -> SpecProcessing {
        SpecProcessing {
            processed: self.processed.push(self.sources[place]),
            paths: self.paths.push(spec_source_id(place + 1, self.sources[place] as int)),
            ..self
        }.after_bitmap(place)
    }

    /// The bitmap in that place is skipped.
    pub open spec fn skipped_at(self, place: int) -> SpecProcessing {
        SpecProcessing {
            skipped: self.skipped.push(spec_source_id(place + 1, self.sources[place] as int)),
            ..self
        }.after_bitmap(place)
    }

    /// What comes after the current action.
    pub open spec fn next(self, event: ProcessEvent) -> SpecProcessing {
        match (self.action, event) {
            (ProcessAction::CountSelection, ProcessEvent::Selected(count)) => {
                let counted = SpecProcessing { selected_count: count as int, ..self };
                if count == 0 {
                    counted.refused(SelectionError::EmptySelection)
                } else if self.operation == SelectionOperation::MergeHoles {
                    counted.with_action(ProcessAction::Merge)
                } else {
                    counted.after_source(0)
                }
            },
            (ProcessAction::Merge, ProcessEvent::Succeeded) => self.with_action(
                ProcessAction::Done,
            ),
            (ProcessAction::ReadSource(number), ProcessEvent::Source(source)) => match source {
                Some(id) => SpecProcessing {
                    sources: if self.sources.contains(id) {
                        self.sources
                    } else {
                        self.sources.push(id)
                    },
                    ..self
                }.after_source(number as int),
                None => self.after_source(number as int),
            },
            (ProcessAction::ReadSource(_), ProcessEvent::MissingSource(static_id)) => self.refused(
                SelectionError::MissingSource { static_id },
            ),
            (ProcessAction::ReadBitmap(place), ProcessEvent::Placed { transform, cropped }) => {
                let index = (place + 1) as i32;
                match transform_error(transform, index) {
                    Some(error) => self.refused(error),
                    None => if cropped {
                        self.refused(SelectionError::Cropped { index })
                    } else {
                        self.with_action(ProcessAction::ExportBitmap(place))
                    },
                }
            },
            (
                ProcessAction::ExportBitmap(place),
                ProcessEvent::Exported {
                    expected_width,
                    expected_height,
                    width,
                    height,
                    has_transparent_edge,
                },
            ) => if width != expected_width || height != expected_height {
                self.refused(
                    SelectionError::WrongSize {
                        index: (place + 1) as i32,
                        static_id: self.sources[place as int],
                        expected_width,
                        expected_height,
                        width,
                        height,
                    },
                )
            } else if has_transparent_edge {
                self.with_action(ProcessAction::Trace(place))
            } else {
                self.skipped_at(place as int)
            },
            (ProcessAction::Trace(place), ProcessEvent::Succeeded) => if
                !self.operation.spec_places_holes() {
                self.processed_at(place as int)
            } else if self.operation == SelectionOperation::AddHoles && same(
                self.settings.hole_diameter_mm,
                0,
            ) {
                self.refused(SelectionError::NoHoleDiameter)
            } else {
                self.with_action(ProcessAction::PlaceHole(place))
            },
            (ProcessAction::PlaceHole(place), ProcessEvent::Succeeded) => self.processed_at(
                place as int,
            ),
            (ProcessAction::NameLayer, ProcessEvent::Succeeded) => self.with_action(
                ProcessAction::Write,
            ),
            (ProcessAction::NameLayer, ProcessEvent::NoName) => self.refused(
                SelectionError::NoLayerName,
            ),
            (ProcessAction::Write, ProcessEvent::Succeeded) => self.with_action(
                ProcessAction::Done,
            ),
            (ProcessAction::Done, _) => self,
            (ProcessAction::Failed(_), _) => self,
            _ => self.failed(),
        }
    }

    /// Whether a processing can be in this state.
    pub open spec fn is_valid(self) -> bool {
        &&& self.selected_count <= i32::MAX
        &&& self.sources.no_duplicates()
        &&& match self.action {
            ProcessAction::CountSelection => self.sources.len() == 0 && self.processed.len() == 0
                && self.skipped.len() == 0,
            ProcessAction::ReadSource(number) => 1 <= number <= self.selected_count
                && self.sources.len() < number && self.processed.len() == 0
                && self.skipped.len() == 0,
            ProcessAction::ReadBitmap(place) | ProcessAction::ExportBitmap(place)
            | ProcessAction::Trace(place) | ProcessAction::PlaceHole(place) => place
                < self.sources.len() <= self.selected_count && self.processed.len()
                + self.skipped.len() == place,
            ProcessAction::NameLayer | ProcessAction::Write => self.processed.len() > 0
                && self.processed.len() + self.skipped.len() == self.sources.len(),
            _ => true,
        }
    }

    /// Whether a processing has ended.
    pub open spec fn has_ended(self) -> bool {
        self.action is Done || self.action is Failed
    }

    /// How many actions a processing can still take.
    pub open spec fn rank(self) -> (int, int) {
        match self.action {
            ProcessAction::CountSelection => (5, 0),
            ProcessAction::ReadSource(number) => (4, self.selected_count - number),
            ProcessAction::ReadBitmap(place) => (3, 4 * (self.sources.len() - place)),
            ProcessAction::ExportBitmap(place) => (3, 4 * (self.sources.len() - place) - 1),
            ProcessAction::Trace(place) => (3, 4 * (self.sources.len() - place) - 2),
            ProcessAction::PlaceHole(place) => (3, 4 * (self.sources.len() - place) - 3),
            ProcessAction::NameLayer => (2, 0),
            ProcessAction::Write | ProcessAction::Merge => (1, 0),
            ProcessAction::Done | ProcessAction::Failed(_) => (0, 0),
        }
    }
}

impl Processing {
    pub open spec fn view(&self) -> SpecProcessing {
        SpecProcessing {
            settings: self.settings,
            operation: self.operation,
            selected_count: self.selected_count as int,
            sources: self.sources@,
            processed: self.run.spec_processed(),
            paths: self.run.spec_paths(),
            skipped: self.run.spec_skipped(),
            action: self.action,
        }
    }

    pub open spec fn well_formed(&self) -> bool {
        &&& self.view().is_valid()
        &&& self.sources.well_formed()
        &&& self.run.well_formed()
        &&& self.run.names_belong()
        &&& self.run.spec_operation() == self.operation
    }

    /// Starts to process what is selected. The settings have to be valid, unless curves
    /// are merged.
    pub fn start(settings: ProcessingSettings, operation: SelectionOperation) -> (res: Result<
        Processing,
        SelectionError,
    >)
        ensures
            match res {
                Ok(started) => {
                    &&& started.well_formed()
                    &&& operation == SelectionOperation::MergeHoles || settings.is_valid()
                    &&& started.view() == (SpecProcessing {
                        settings,
                        operation,
                        selected_count: 0,
                        sources: Seq::empty(),
                        processed: Seq::empty(),
                        paths: Seq::empty(),
                        skipped: Seq::empty(),
                        action: ProcessAction::CountSelection,
                    })
                },
                Err(error) => operation != SelectionOperation::MergeHoles && !settings.is_valid()
                    && error == SelectionError::InvalidSettings,
            },
    {
        if operation != SelectionOperation::MergeHoles {
            match settings.validate() {
                Ok(_) => {},
                Err(error) => {
                    return Err(error);
                },
            }
        }
        Ok(
            Processing {
                settings,
                operation,
                selected_count: 0,
                sources: FirstMet::new(),
                run: SelectionRun::new(operation),
                action: ProcessAction::CountSelection,
            },
        )
    }

    fn refuse(&mut self, error: SelectionError)
        ensures
            final(self).view() == old(self).view().refused(error),
            old(self).well_formed() ==> final(self).well_formed(),
    {
        self.action = ProcessAction::Failed(ProcessFault::Refused(error));
    }

    fn end_source(&mut self, number: i32)
        requires
            old(self).sources.well_formed(),
            old(self).run.well_formed(),
            old(self).run.names_belong(),
            old(self).run.spec_operation() == old(self).operation,
            old(self).run.spec_processed().len() == 0,
            old(self).run.spec_skipped().len() == 0,
            0 <= number,
            old(self).sources@.len() <= number,
            number <= old(self).selected_count || old(self).sources@.len() == 0,
        ensures
            final(self).view() == old(self).view().after_source(number as int),
            final(self).well_formed(),
    {
        if number < self.selected_count {
            self.action = ProcessAction::ReadSource(number + 1);
        } else {
            match check_sources(self.operation, self.sources.len()) {
                Ok(_) => {
                    self.action = ProcessAction::ReadBitmap(0);
                },
                Err(error) => {
                    self.action = ProcessAction::Failed(ProcessFault::Refused(error));
                },
            }
        }
    }

    /// Takes the bitmap in that place into the run, and goes on to the next one.
    fn end_bitmap(&mut self, place: usize, has_transparent_edge: bool)
        requires
            old(self).well_formed(),
            place < old(self).sources@.len() <= old(self).selected_count,
            old(self).run.spec_processed().len() + old(self).run.spec_skipped().len() == place,
        ensures
            final(self).well_formed(),
            final(self).view() == (if has_transparent_edge {
                old(self).view().processed_at(place as int)
            } else {
                old(self).view().skipped_at(place as int)
            }),
    {
        let static_id: i32 = self.sources.get(place);
        let index: i32 = place as i32 + 1;
        let processed = self.run.take(index, static_id, has_transparent_edge);
        if place + 1 < self.sources.len() {
            self.action = ProcessAction::ReadBitmap(place + 1);
        } else {
            match self.run.check() {
                Ok(_) => {
                    self.action = ProcessAction::NameLayer;
                },
                Err(error) => {
                    self.action = ProcessAction::Failed(ProcessFault::Refused(error));
                },
            }
        }
    }

    /// What comes after the current action.
    pub fn next(&mut self, event: ProcessEvent)
        requires
            old(self).well_formed(),
        ensures
            final(self).well_formed(),
            final(self).view() == old(self).view().next(event),
    {
        match (self.action, event) {
            (ProcessAction::CountSelection, ProcessEvent::Selected(count)) => {
                self.selected_count = count;
                match check_selected(count) {
                    Ok(_) => {},
                    Err(error) => {
                        self.refuse(error);
                        return;
                    },
                }
                if self.operation == SelectionOperation::MergeHoles {
                    self.action = ProcessAction::Merge;
                } else {
                    self.end_source(0);
                }
            },
            (ProcessAction::Merge, ProcessEvent::Succeeded) => {
                self.action = ProcessAction::Done;
            },
            (ProcessAction::ReadSource(number), ProcessEvent::Source(source)) => {
                if let Some(id) = source {
                    let new = self.sources.insert(id);
                }
                self.end_source(number);
            },
            (ProcessAction::ReadSource(_), ProcessEvent::MissingSource(static_id)) => {
                self.refuse(SelectionError::MissingSource { static_id });
            },
            (ProcessAction::ReadBitmap(place), ProcessEvent::Placed { transform, cropped }) => {
                let index: i32 = place as i32 + 1;
                match validate_selected_bitmap_transform(transform, index) {
                    Ok(_) => {},
                    Err(error) => {
                        self.refuse(error);
                        return;
                    },
                }
                if cropped {
                    self.refuse(SelectionError::Cropped { index });
                } else {
                    self.action = ProcessAction::ExportBitmap(place);
                }
            },
            (
                ProcessAction::ExportBitmap(place),
                ProcessEvent::Exported {
                    expected_width,
                    expected_height,
                    width,
                    height,
                    has_transparent_edge,
                },
            ) => {
                let index: i32 = place as i32 + 1;
                match check_exported_bitmap(
                    index,
                    self.sources.get(place),
                    expected_width,
                    expected_height,
                    width,
                    height,
                ) {
                    Ok(_) => {},
                    Err(error) => {
                        self.refuse(error);
                        return;
                    },
                }
                if has_transparent_edge {
                    self.action = ProcessAction::Trace(place);
                } else {
                    self.end_bitmap(place, false);
                }
            },
            (ProcessAction::Trace(place), ProcessEvent::Succeeded) => {
                if !self.operation.places_holes() {
                    self.end_bitmap(place, true);
                } else if self.operation == SelectionOperation::AddHoles && is_same(
                    self.settings.hole_diameter_mm,
                    0,
                ) {
                    self.refuse(SelectionError::NoHoleDiameter);
                } else {
                    self.action = ProcessAction::PlaceHole(place);
                }
            },
            (ProcessAction::PlaceHole(place), ProcessEvent::Succeeded) => {
                self.end_bitmap(place, true);
            },
            (ProcessAction::NameLayer, ProcessEvent::Succeeded) => {
                self.action = ProcessAction::Write;
            },
            (ProcessAction::NameLayer, ProcessEvent::NoName) => {
                self.refuse(SelectionError::NoLayerName);
            },
            (ProcessAction::Write, ProcessEvent::Succeeded) => {
                self.action = ProcessAction::Done;
            },
            (ProcessAction::Done, _) => {},
            (ProcessAction::Failed(_), _) => {},
            _ => {
                self.action = ProcessAction::Failed(ProcessFault::Outside);
            },
        }
    }
}

/// A processing stays valid and comes to an end, whatever comes of its actions.
pub proof fn law_a_processing_ends(state: SpecProcessing, event: ProcessEvent)
    requires
        state.is_valid(),
        !state.has_ended(),
    ensures
        ({
            let next = state.next(event);
            &&& next.is_valid()
            &&& next.rank().0 < state.rank().0 || (next.rank().0 == state.rank().0
                && next.rank().1 < state.rank().1)
            &&& 0 <= next.rank().0
            &&& 0 <= next.rank().1
        }),
{
    assert forall|id: i32| !state.sources.contains(id) && state.sources.no_duplicates() implies
        #[trigger] state.sources.push(id).no_duplicates() by {
        let longer = state.sources.push(id);
        assert forall|i: int, j: int|
            0 <= i < longer.len() && 0 <= j < longer.len() && i != j implies longer[i]
            != longer[j] by {
            if i < state.sources.len() && j < state.sources.len() {
                assert(state.sources[i] != state.sources[j]);
            } else if i < state.sources.len() {
                assert(state.sources.contains(state.sources[i]));
            } else {
                assert(state.sources.contains(state.sources[j]));
            }
        }
    }
}

/// A selection is refused before the document is changed: once it is being changed, the
/// outcome is that it is changed, or that changing it failed.
pub proof fn law_refusals_come_before_changes(state: SpecProcessing, event: ProcessEvent)
    requires
        state.action is Write || state.action is Done,
    ensures
        ({
            let next = state.next(event);
            next.action is Done || next.action == ProcessAction::Failed(ProcessFault::Outside)
        }),
{
}

/// The document is changed only when every bitmap that is meant was processed or skipped,
/// and one of them was processed.
pub proof fn law_everything_is_checked_before_changes(state: SpecProcessing, event: ProcessEvent)
    requires
        state.is_valid(),
        state.next(event).action is Write,
    ensures
        ({
            let next = state.next(event);
            &&& next.processed.len() + next.skipped.len() == next.sources.len()
            &&& next.processed.len() > 0
            &&& next.sources.no_duplicates()
        }),
{
    if !state.has_ended() {
        law_a_processing_ends(state, event);
    }
}

/// A bitmap without a transparent edge is skipped: nothing is drawn for it.
pub proof fn law_bitmaps_without_an_edge_are_skipped(state: SpecProcessing, event: ProcessEvent)
    requires
        state.action is ExportBitmap,
        event matches ProcessEvent::Exported { has_transparent_edge, .. } && !has_transparent_edge,
    ensures
        state.next(event).processed == state.processed,
{
}

/// Where holes are placed, a bitmap is processed by placing its hole: nothing is drawn for
/// it without one.
pub proof fn law_processed_bitmaps_have_their_holes(state: SpecProcessing, event: ProcessEvent)
    requires
        state.operation.spec_places_holes(),
        state.next(event).processed != state.processed,
    ensures
        state.action matches ProcessAction::PlaceHole(place) && event == ProcessEvent::Succeeded
            && state.next(event).processed == state.processed.push(state.sources[place as int]),
{
}

/// Merging is no processing of bitmaps: none is read, and nothing is drawn for one.
pub proof fn law_merging_processes_no_bitmap(state: SpecProcessing, event: ProcessEvent)
    requires
        state.operation == SelectionOperation::MergeHoles,
        state.action is CountSelection || state.action is Merge || state.has_ended(),
    ensures
        ({
            let next = state.next(event);
            &&& next.operation == state.operation
            &&& next.action is Merge || next.has_ended()
            &&& next.sources == state.sources
            &&& next.processed == state.processed
        }),
{
}

/// What is drawn is drawn for bitmaps that are meant, each one when its turn has come; what is
/// skipped is told by its place and number.
pub proof fn law_bitmaps_are_taken_in_their_order(state: SpecProcessing, event: ProcessEvent)
    ensures
        ({
            let next = state.next(event);
            &&& next.processed != state.processed ==> {
                &&& event == ProcessEvent::Succeeded
                &&& (state.action matches ProcessAction::Trace(place) && next.processed
                    == state.processed.push(state.sources[place as int])) || (
                state.action matches ProcessAction::PlaceHole(place) && next.processed
                    == state.processed.push(state.sources[place as int]))
            }
            &&& next.skipped != state.skipped ==> (
            state.action matches ProcessAction::ExportBitmap(place) && next.skipped
                == state.skipped.push(
                spec_source_id(place + 1, state.sources[place as int] as int),
            ))
            &&& next.settings == state.settings
            &&& next.operation == state.operation
        }),
{
}

/// A bitmap that is upright, whole, of the expected size and has a transparent edge goes all the
/// way to its outline, and to its hole where holes are placed.
pub proof fn law_good_bitmaps_are_processed(
    state: SpecProcessing,
    place: usize,
    transform: BitmapTransform,
    width: u32,
    height: u32,
)
    requires
        state.is_valid(),
        state.action == ProcessAction::ReadBitmap(place),
        transform_error(transform, (place + 1) as i32) is None,
        state.operation == SelectionOperation::AddHoles ==> !same(
            state.settings.hole_diameter_mm,
            0,
        ),
    ensures
        ({
            let exported = state.next(ProcessEvent::Placed { transform, cropped: false });
            let traced = exported.next(
                ProcessEvent::Exported {
                    expected_width: width,
                    expected_height: height,
                    width,
                    height,
                    has_transparent_edge: true,
                },
            );
            let drawn = traced.next(ProcessEvent::Succeeded);
            let holed = drawn.next(ProcessEvent::Succeeded);
            &&& exported.action == ProcessAction::ExportBitmap(place)
            &&& traced.action == ProcessAction::Trace(place)
            &&& if state.operation == SelectionOperation::AddHoles || state.operation
                == SelectionOperation::OutlineAndHole {
                drawn.action == ProcessAction::PlaceHole(place) && holed.processed
                    == state.processed.push(state.sources[place as int])
            } else {
                drawn.processed == state.processed.push(state.sources[place as int])
            }
        }),
{
}

/// A bitmap is refused for what is wrong with it: its transform, that it is cropped, or the size
/// of its picture.
pub proof fn law_bad_bitmaps_are_refused(
    state: SpecProcessing,
    place: usize,
    transform: BitmapTransform,
    expected: (u32, u32),
    found: (u32, u32),
    edge: bool,
)
    requires
        state.is_valid(),
    ensures
        state.action == ProcessAction::ReadBitmap(place) ==> (transform_error(
            transform,
            (place + 1) as i32,
        ) matches Some(error) ==> state.next(
            ProcessEvent::Placed { transform, cropped: false },
        ).action == ProcessAction::Failed(ProcessFault::Refused(error))),
        state.action == ProcessAction::ReadBitmap(place) && transform_error(
            transform,
            (place + 1) as i32,
        ) is None ==> state.next(ProcessEvent::Placed { transform, cropped: true }).action
            == ProcessAction::Failed(
            ProcessFault::Refused(SelectionError::Cropped { index: (place + 1) as i32 }),
        ),
        state.action == ProcessAction::ExportBitmap(place) && expected != found ==> state.next(
            ProcessEvent::Exported {
                expected_width: expected.0,
                expected_height: expected.1,
                width: found.0,
                height: found.1,
                has_transparent_edge: edge,
            },
        ).action is Failed,
{
}

/// Every selected object is read, from the first to the last, and every bitmap that one means is
/// taken up, once; the bitmaps are looked at only then, from the first one on.
pub proof fn law_every_selected_object_is_read(
    state: SpecProcessing,
    number: i32,
    source: Option<i32>,
    count: i32,
)
    requires
        state.is_valid(),
    ensures
        state.action is CountSelection && count > 0 && state.operation
            != SelectionOperation::MergeHoles ==> state.next(ProcessEvent::Selected(count)).action
            == ProcessAction::ReadSource(1),
        state.action is CountSelection && count > 0 && state.operation
            == SelectionOperation::MergeHoles ==> state.next(ProcessEvent::Selected(count)).action
            == ProcessAction::Merge,
        state.action is CountSelection ==> state.next(
            ProcessEvent::Selected(0),
        ).action is Failed,
        state.action == ProcessAction::ReadSource(number) && number < state.selected_count
            ==> state.next(ProcessEvent::Source(source)).action == ProcessAction::ReadSource(
            (number + 1) as i32,
        ),
        state.action == ProcessAction::ReadSource(number) ==> ({
            let next = state.next(ProcessEvent::Source(source));
            &&& source matches Some(id) ==> next.sources.contains(id)
            &&& source matches Some(id) ==> (next.sources == state.sources || next.sources
                == state.sources.push(id))
            &&& source is None ==> next.sources == state.sources
            &&& number == state.selected_count && next.sources.len() > 0 ==> next.action
                == ProcessAction::ReadBitmap(0)
            &&& number == state.selected_count && next.sources.len() == 0 ==> next.action is Failed
        }),
{
    if let Some(id) = source {
        assert(state.sources.push(id)[state.sources.len() as int] == id);
    }
}

/// The bitmaps are worked off from the first to the last; when the last one is finished, a layer
/// is looked for if something is to be drawn, and the selection is refused if not.
pub proof fn law_bitmaps_are_worked_off(state: SpecProcessing, place: usize)
    requires
        state.is_valid(),
        state.action == ProcessAction::PlaceHole(place),
    ensures
        ({
            let next = state.next(ProcessEvent::Succeeded);
            if place + 1 < state.sources.len() {
                next.action == ProcessAction::ReadBitmap((place + 1) as usize)
            } else {
                next.action == ProcessAction::NameLayer
            }
        }),
{
}

/// Where no selected object means a bitmap, the selection is refused for want of bitmaps, or of
/// outlines with bitmaps where holes are to be added; where every bitmap was skipped, it is
/// refused since there is nothing to do.
pub proof fn law_refusals_tell_what_is_lacking(state: SpecProcessing, event: ProcessEvent)
    requires
        state.is_valid(),
        !(state.action is Failed),
    ensures
        state.action is ReadSource && (event matches ProcessEvent::Source(_)) && state.next(
            event,
        ).action is Failed ==> ({
            let fault = state.next(event).action;
            &&& state.operation == SelectionOperation::AddHoles ==> fault == ProcessAction::Failed(
                ProcessFault::Refused(SelectionError::NoHoleSource),
            )
            &&& state.operation != SelectionOperation::AddHoles ==> fault == ProcessAction::Failed(
                ProcessFault::Refused(SelectionError::NoBitmap),
            )
        }),
        state.next(event).action == ProcessAction::Failed(
            ProcessFault::Refused(SelectionError::NothingToDo),
        ) ==> state.next(event).processed.len() == 0 && state.next(event).skipped.len() > 0,
{
}

/// A bitmap is called by its place and its number, whether it is processed or skipped, and as
/// many bitmaps are called processed as are.
pub proof fn law_bitmaps_are_called_by_their_places(
    state: SpecProcessing,
    event: ProcessEvent,
    place: int,
)
    ensures
        state.processed_at(place).paths == state.paths.push(
            state.skipped_at(place).skipped.last(),
        ),
        state.processed_at(place).paths.last() == "selection."@ + decimal_int(1 + place)
            + ".id-"@ + decimal_int(state.sources[place] as int),
        state.next(event).paths.len() - state.paths.len() == state.next(event).processed.len()
            - state.processed.len(),
{
}

} // verus!
