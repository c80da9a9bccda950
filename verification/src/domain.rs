//! Points, closed paths, and measurements in millimeters.
//!
//! Coordinates and measurements are held as bit patterns; see [`crate::measure`].

use vstd::prelude::*;
use vstd::std_specs::cmp::PartialEqSpecImpl;

use crate::gap::{gap_within, is_gap_within, law_gaps_are_symmetric};
use crate::measure::{finite, finite_positive, is_finite, is_finite_positive, is_same, same};

verus! {

/// A billionth: the largest gap between points that count as the same.
pub const CONTINUITY_EPSILON_MM: u64 = 0x3e11_2e0b_e826_d695;

/// Why a path or a measurement is refused.
#[derive(Debug, Clone, Copy, PartialEq, Eq, Structural)]
pub enum DomainError {
    NonFiniteCoordinate,
    NoSegments,
    TooFewVertices,
    DiscontinuousPath,
    OpenPath,
    NonFiniteMeasurement,
    NonPositiveMeasurement,
}

impl DomainError {
    /// The text shown for the error.
    pub open spec fn spec_message(self) -> Seq<char> {
        match self {
            DomainError::NonFiniteCoordinate => "path coordinates must be finite"@,
            DomainError::NoSegments => "a closed path requires at least one segment"@,
            DomainError::TooFewVertices => "a closed path requires at least three vertices"@,
            DomainError::DiscontinuousPath => "adjacent path segments must share an endpoint"@,
            DomainError::OpenPath => "the final path segment must end at the first point"@,
            DomainError::NonFiniteMeasurement => "measurements must be finite"@,
            DomainError::NonPositiveMeasurement => "measurements must be greater than zero"@,
        }
    }

    /// The text shown for the error.
    pub fn message(self) -> (res: String)
        ensures
            res@ == self.spec_message(),
    {
        match self {
            DomainError::NonFiniteCoordinate => "path coordinates must be finite".to_owned(),
            DomainError::NoSegments => "a closed path requires at least one segment".to_owned(),
            DomainError::TooFewVertices =>
                "a closed path requires at least three vertices".to_owned(),
            DomainError::DiscontinuousPath =>
                "adjacent path segments must share an endpoint".to_owned(),
            DomainError::OpenPath =>
                "the final path segment must end at the first point".to_owned(),
            DomainError::NonFiniteMeasurement => "measurements must be finite".to_owned(),
            DomainError::NonPositiveMeasurement =>
                "measurements must be greater than zero".to_owned(),
        }
    }
}

// ---------------------------------------------------------------------------
// Points and segments
// ---------------------------------------------------------------------------

/// A point; equal points have coordinates that stand for equal numbers.
#[derive(Debug, Clone, Copy)]
pub struct PointMm {
    pub x: u64,
    pub y: u64,
}

/// Whether the coordinates of two points stand for equal numbers.
pub open spec fn same_point(a: PointMm, b: PointMm) -> bool {
    same(a.x, b.x) && same(a.y, b.y)
}

impl PartialEq for PointMm {
    fn eq(&self, other: &Self) -> (res: bool) {
        is_same(self.x, other.x) && is_same(self.y, other.y)
    }
}

impl PartialEqSpecImpl for PointMm {
    open spec fn obeys_eq_spec() -> bool {
        true
    }

    open spec fn eq_spec(&self, other: &Self) -> bool {
        same_point(*self, *other)
    }
}

impl PointMm {
    pub fn new(x: u64, y: u64) -> (res: Self)
        ensures
            res == (PointMm { x, y }),
    {
        PointMm { x, y }
    }

    pub open spec fn finite(self) -> bool {
        finite(self.x) && finite(self.y)
    }

    /// Whether both coordinates are finite.
    pub fn is_finite(self) -> (res: bool)
        ensures
            res == self.finite(),
    {
        is_finite(self.x) && is_finite(self.y)
    }
}

/// Whether two points count as the same.
pub open spec fn continuous(left: PointMm, right: PointMm) -> bool {
    gap_within(left.x, right.x, CONTINUITY_EPSILON_MM) && gap_within(
        left.y,
        right.y,
        CONTINUITY_EPSILON_MM,
    )
}

/// Whether two points count as the same.
pub fn points_are_continuous(left: PointMm, right: PointMm) -> (res: bool)
    ensures
        res == continuous(left, right),
{
    is_gap_within(left.x, right.x, CONTINUITY_EPSILON_MM) && is_gap_within(
        left.y,
        right.y,
        CONTINUITY_EPSILON_MM,
    )
}

/// A piece of a path.
#[derive(Debug, Clone, Copy, PartialEq)]
pub enum PathSegment {
    Line { start: PointMm, end: PointMm },
    CubicBezier { start: PointMm, control_start: PointMm, control_end: PointMm, end: PointMm },
}

impl PathSegment {
    pub open spec fn spec_start(self) -> PointMm {
        match self {
            PathSegment::Line { start, .. } => start,
            PathSegment::CubicBezier { start, .. } => start,
        }
    }

    pub open spec fn spec_end(self) -> PointMm {
        match self {
            PathSegment::Line { end, .. } => end,
            PathSegment::CubicBezier { end, .. } => end,
        }
    }

    /// Whether all points of the segment are finite.
    pub open spec fn finite(self) -> bool {
        match self {
            PathSegment::Line { start, end } => start.finite() && end.finite(),
            PathSegment::CubicBezier { start, control_start, control_end, end } => start.finite()
                && control_start.finite() && control_end.finite() && end.finite(),
        }
    }

    pub fn start(&self) -> (res: PointMm)
        ensures
            res == self.spec_start(),
    {
        match self {
            PathSegment::Line { start, .. } => *start,
            PathSegment::CubicBezier { start, .. } => *start,
        }
    }

    pub fn end(&self) -> (res: PointMm)
        ensures
            res == self.spec_end(),
    {
        match self {
            PathSegment::Line { end, .. } => *end,
            PathSegment::CubicBezier { end, .. } => *end,
        }
    }

    fn has_only_finite_points(&self) -> (res: bool)
        ensures
            res == self.finite(),
    {
        match self {
            PathSegment::Line { start, end } => start.is_finite() && end.is_finite(),
            PathSegment::CubicBezier { start, control_start, control_end, end } => start.is_finite()
                && control_start.is_finite() && control_end.is_finite() && end.is_finite(),
        }
    }

    /// The segment drawn the other way round.
    pub open spec fn spec_reversed(self) -> PathSegment {
        match self {
            PathSegment::Line { start, end } => PathSegment::Line { start: end, end: start },
            PathSegment::CubicBezier { start, control_start, control_end, end } =>
                PathSegment::CubicBezier {
                start: end,
                control_start: control_end,
                control_end: control_start,
                end: start,
            },
        }
    }

    fn reversed(&self) -> (res: PathSegment)
        ensures
            res == self.spec_reversed(),
    {
        match self {
            PathSegment::Line { start, end } => PathSegment::Line { start: *end, end: *start },
            PathSegment::CubicBezier { start, control_start, control_end, end } =>
                PathSegment::CubicBezier {
                start: *end,
                control_start: *control_end,
                control_end: *control_start,
                end: *start,
            },
        }
    }
}

// ---------------------------------------------------------------------------
// Closed paths
// ---------------------------------------------------------------------------

/// Whether every segment is finite.
pub open spec fn all_finite(segments: Seq<PathSegment>) -> bool {
    forall|i: int| 0 <= i < segments.len() ==> (#[trigger] segments[i]).finite()
}

/// Whether segment `i` ends where the next one starts.
pub open spec fn joined_at(segments: Seq<PathSegment>, i: int) -> bool {
    continuous(segments[i].spec_end(), segments[i + 1].spec_start())
}

/// Whether every segment but the last ends where the next one starts.
pub open spec fn all_joined(segments: Seq<PathSegment>) -> bool {
    forall|i: int| 0 <= i < segments.len() - 1 ==> #[trigger] joined_at(segments, i)
}

/// Whether the last segment ends where the first one starts.
pub open spec fn comes_back(segments: Seq<PathSegment>) -> bool {
    continuous(segments.last().spec_end(), segments[0].spec_start())
}

/// Whether segments make up a closed path.
pub open spec fn is_closed_path(segments: Seq<PathSegment>) -> bool {
    segments.len() > 0 && all_finite(segments) && all_joined(segments) && comes_back(segments)
}

/// Why segments do not make up a closed path, in the order in which it is found out.
pub open spec fn path_error(segments: Seq<PathSegment>) -> Option<DomainError> {
    if segments.len() == 0 {
        Some(DomainError::NoSegments)
    } else if !all_finite(segments) {
        Some(DomainError::NonFiniteCoordinate)
    } else if !all_joined(segments) {
        Some(DomainError::DiscontinuousPath)
    } else if !comes_back(segments) {
        Some(DomainError::OpenPath)
    } else {
        None
    }
}

/// A path that ends where it starts.
#[derive(Debug, PartialEq)]
pub struct ClosedPath {
    segments: Vec<PathSegment>,
}

/// The lines around a polygon.
pub open spec fn polygon(vertices: Seq<PointMm>) -> Seq<PathSegment> {
    Seq::new(
        vertices.len(),
        |i: int|
            PathSegment::Line {
                start: vertices[i],
                end: vertices[if i + 1 < vertices.len() {
                    i + 1
                } else {
                    0
                }],
            },
    )
}

/// Vertices without the last one, if it repeats the first one.
pub open spec fn without_closing(vertices: Seq<PointMm>) -> Seq<PointMm> {
    if vertices.len() > 0 && same_point(vertices[0], vertices.last()) {
        vertices.drop_last()
    } else {
        vertices
    }
}

pub open spec fn all_points_finite(vertices: Seq<PointMm>) -> bool {
    forall|i: int| 0 <= i < vertices.len() ==> (#[trigger] vertices[i]).finite()
}

impl ClosedPath {
    /// The segments, in order.
    pub closed spec fn view(&self) -> Seq<PathSegment> {
        self.segments@
    }

    #[verifier::type_invariant]
    closed spec fn is_closed(self) -> bool {
        is_closed_path(self.segments@)
    }

    /// The path made of `segments`: each one has to end where the next one starts, and
    /// the last one where the first one starts.
    pub fn try_new(segments: Vec<PathSegment>) -> (res: Result<Self, DomainError>)
        ensures
            match res {
                Ok(path) => path_error(segments@) is None && path@ == segments@ && is_closed_path(
                    path@,
                ),
                Err(error) => path_error(segments@) == Some(error),
            },
    {
        if segments.len() == 0 {
            return Err(DomainError::NoSegments);
        }
        for i in 0..segments.len()
            invariant
                forall|k: int| 0 <= k < i ==> (#[trigger] segments@[k]).finite(),
                segments@.len() > 0,
        {
            if !segments[i].has_only_finite_points() {
                assert(!segments@[i as int].finite());
                return Err(DomainError::NonFiniteCoordinate);
            }
        }
        for i in 0..segments.len() - 1
            invariant
                segments@.len() > 0,
                all_finite(segments@),
                forall|k: int| 0 <= k < i ==> #[trigger] joined_at(segments@, k),
        {
            if !points_are_continuous(segments[i].end(), segments[i + 1].start()) {
                assert(!joined_at(segments@, i as int));
                return Err(DomainError::DiscontinuousPath);
            }
        }
        if !points_are_continuous(segments[segments.len() - 1].end(), segments[0].start()) {
            return Err(DomainError::OpenPath);
        }
        Ok(ClosedPath { segments })
    }

    /// The polygon with these vertices; the first one may be repeated at the end.
    pub fn try_from_vertices(vertices: Vec<PointMm>) -> (res: Result<Self, DomainError>)
        ensures
            match res {
                Ok(path) => {
                    &&& all_points_finite(vertices@)
                    &&& without_closing(vertices@).len() >= 3
                    &&& path@ == polygon(without_closing(vertices@))
                    &&& is_closed_path(path@)
                },
                Err(error) => error == if !all_points_finite(vertices@) {
                    DomainError::NonFiniteCoordinate
                } else {
                    DomainError::TooFewVertices
                } && (all_points_finite(vertices@) ==> without_closing(vertices@).len() < 3),
            },
    {
        let given: usize = vertices.len();
        for i in 0..given
            invariant
                given == vertices@.len(),
                forall|k: int| 0 <= k < i ==> (#[trigger] vertices@[k]).finite(),
        {
            if !vertices[i].is_finite() {
                assert(!vertices@[i as int].finite());
                return Err(DomainError::NonFiniteCoordinate);
            }
        }
        let count: usize = if given > 0 && vertices[0] == vertices[given - 1] {
            given - 1
        } else {
            given
        };
        let ghost kept = without_closing(vertices@);
        assert(kept =~= vertices@.take(count as int));
        if count < 3 {
            return Err(DomainError::TooFewVertices);
        }
        let mut segments: Vec<PathSegment> = Vec::new();
        for i in 0..count
            invariant
                3 <= count <= vertices@.len(),
                kept == vertices@.take(count as int),
                segments@ == polygon(kept).take(i as int),
        {
            let next: usize = if i + 1 < count {
                i + 1
            } else {
                0
            };
            let segment = PathSegment::Line { start: vertices[i], end: vertices[next] };
            assert(segment == polygon(kept)[i as int]);
            segments.push(segment);
        }
        assert(segments@ =~= polygon(kept));
        proof {
            assert forall|k: int| 0 <= k < kept.len() implies (#[trigger] kept[k]).finite() by {
                assert(vertices@[k].finite());
            }
            lemma_polygon_is_closed(kept);
        }
        ClosedPath::try_new(segments)
    }

    /// The segments, in order.
    pub fn segments(&self) -> (res: &[PathSegment])
        ensures
            res@ == self@,
            is_closed_path(self@),
    {
        proof {
            use_type_invariant(self);
        }
        self.segments.as_slice()
    }

    /// The same path drawn the other way round.
    pub fn reversed(&self) -> (res: ClosedPath)
        ensures
            res@ == reversed_path(self@),
            is_closed_path(res@),
    {
        proof {
            use_type_invariant(self);
            law_a_reversed_path_is_closed(self@);
        }
        let count: usize = self.segments.len();
        let mut segments: Vec<PathSegment> = Vec::new();
        for i in 0..count
            invariant
                count == self.segments@.len(),
                segments@ == reversed_path(self.segments@).take(i as int),
        {
            segments.push(self.segments[count - 1 - i].reversed());
        }
        assert(segments@ =~= reversed_path(self.segments@));
        ClosedPath { segments }
    }
}

impl Clone for ClosedPath {
    fn clone(&self) -> (res: Self)
        ensures
            res@ == self@,
    {
        proof {
            use_type_invariant(self);
        }
        let segments = crate::text::copy_range(
            self.segments.as_slice(),
            0,
            self.segments.len(),
        );
        assert(segments@ =~= self.segments@);
        ClosedPath { segments }
    }
}

proof fn lemma_polygon_is_closed(vertices: Seq<PointMm>)
    requires
        vertices.len() >= 3,
        all_points_finite(vertices),
    ensures
        is_closed_path(polygon(vertices)),
{
    let segments = polygon(vertices);
    assert forall|i: int| 0 <= i < segments.len() implies (#[trigger] segments[i]).finite() by {
        assert(vertices[i].finite());
        assert(vertices[if i + 1 < vertices.len() { i + 1 } else { 0 }].finite());
    }
    assert forall|i: int| 0 <= i < segments.len() - 1 implies #[trigger] joined_at(segments, i) by {
        lemma_point_is_continuous(vertices[i + 1]);
    }
    lemma_point_is_continuous(vertices[0]);
}

proof fn lemma_point_is_continuous(point: PointMm)
    requires
        point.finite(),
    ensures
        continuous(point, point),
{
    law_gaps_are_symmetric(point.x, point.x, CONTINUITY_EPSILON_MM);
    law_gaps_are_symmetric(point.y, point.y, CONTINUITY_EPSILON_MM);
}

/// The segments of a path drawn the other way round.
pub open spec fn reversed_path(segments: Seq<PathSegment>) -> Seq<PathSegment> {
    Seq::new(
        segments.len(),
        |i: int| segments[segments.len() - 1 - i].spec_reversed(),
    )
}

proof fn lemma_continuous_back(left: PointMm, right: PointMm)
    ensures
        continuous(left, right) == continuous(right, left),
{
    law_gaps_are_symmetric(left.x, right.x, CONTINUITY_EPSILON_MM);
    law_gaps_are_symmetric(left.y, right.y, CONTINUITY_EPSILON_MM);
}

/// A closed path drawn the other way round is a closed path.
pub proof fn law_a_reversed_path_is_closed(segments: Seq<PathSegment>)
    requires
        is_closed_path(segments),
    ensures
        is_closed_path(reversed_path(segments)),
{
    let back = reversed_path(segments);
    let n = segments.len() as int;
    assert forall|i: int| 0 <= i < back.len() implies (#[trigger] back[i]).finite() by {
        assert(segments[n - 1 - i].finite());
    }
    assert forall|i: int| 0 <= i < back.len() - 1 implies #[trigger] joined_at(back, i) by {
        let k = n - 2 - i;
        assert(joined_at(segments, k));
        lemma_continuous_back(segments[k].spec_end(), segments[k + 1].spec_start());
    }
    lemma_continuous_back(segments.last().spec_end(), segments[0].spec_start());
}

/// A path drawn the other way round twice is the path.
pub proof fn law_reversing_twice_changes_nothing(segments: Seq<PathSegment>)
    ensures
        reversed_path(reversed_path(segments)) == segments,
{
    assert(reversed_path(reversed_path(segments)) =~= segments);
}

// ---------------------------------------------------------------------------
// Measurements
// ---------------------------------------------------------------------------

/// A finite measurement above zero.
#[derive(Debug, Clone, Copy, PartialEq, Eq)]
pub struct PositiveMm {
    bits: u64,
}

impl PositiveMm {
    pub closed spec fn view(&self) -> u64 {
        self.bits
    }

    #[verifier::type_invariant]
    closed spec fn is_positive(self) -> bool {
        finite_positive(self.bits)
    }

    pub fn try_new(value: u64) -> (res: Result<Self, DomainError>)
        ensures
            match res {
                Ok(measurement) => finite_positive(value) && measurement@ == value,
                Err(error) => error == if !finite(value) {
                    DomainError::NonFiniteMeasurement
                } else {
                    DomainError::NonPositiveMeasurement
                } && !finite_positive(value),
            },
    {
        if !is_finite(value) {
            return Err(DomainError::NonFiniteMeasurement);
        }
        if !is_finite_positive(value) {
            return Err(DomainError::NonPositiveMeasurement);
        }
        Ok(PositiveMm { bits: value })
    }

    pub fn get(self) -> (res: u64)
        ensures
            res == self@,
            finite_positive(res),
    {
        proof {
            use_type_invariant(&self);
        }
        self.bits
    }
}

/// The size of a keyhole.
#[derive(Debug, Clone, Copy, PartialEq, Eq)]
pub struct HoleSettings {
    pub diameter: PositiveMm,
    pub edge_clearance: PositiveMm,
}

impl HoleSettings {
    pub fn new(diameter: PositiveMm, edge_clearance: PositiveMm) -> (res: Self)
        ensures
            res.diameter@ == diameter@,
            res.edge_clearance@ == edge_clearance@,
    {
        HoleSettings { diameter, edge_clearance }
    }
}

/// A hole at a finite place.
#[derive(Debug, Clone, Copy, PartialEq)]
pub struct Hole {
    pub center: PointMm,
    pub diameter: PositiveMm,
}

impl Hole {
    pub fn try_new(center: PointMm, diameter: PositiveMm) -> (res: Result<Self, DomainError>)
        ensures
            match res {
                Ok(hole) => center.finite() && hole.center == center && hole.diameter@
                    == diameter@,
                Err(error) => !center.finite() && error == DomainError::NonFiniteCoordinate,
            },
    {
        if !center.is_finite() {
            return Err(DomainError::NonFiniteCoordinate);
        }
        Ok(Hole { center, diameter })
    }
}

// ---------------------------------------------------------------------------
// Directions
// ---------------------------------------------------------------------------

/// A polygon has a line from every vertex to the next one, and from the last one back to the
/// first: every line starts exactly where the one before it ends.
pub proof fn law_a_polygon_visits_its_vertices(vertices: Seq<PointMm>, i: int)
    requires
        0 <= i < vertices.len(),
    ensures
        polygon(vertices).len() == vertices.len(),
        polygon(vertices)[i] is Line,
        polygon(vertices)[i].spec_start() == vertices[i],
        i + 1 < vertices.len() ==> polygon(vertices)[i].spec_end() == vertices[i + 1],
        polygon(vertices).last().spec_end() == vertices[0],
{
}

/// A segment drawn the other way round starts where it ended and ends where it started. A line
/// stays a line; a curve has its control points in the other order.
pub proof fn law_a_reversed_segment_goes_back(segment: PathSegment)
    ensures
        segment.spec_reversed().spec_start() == segment.spec_end(),
        segment.spec_reversed().spec_end() == segment.spec_start(),
        segment is Line <==> segment.spec_reversed() is Line,
        forall|start: PointMm, control_start: PointMm, control_end: PointMm, end: PointMm|
            segment == (PathSegment::CubicBezier { start, control_start, control_end, end })
                ==> #[trigger] (PathSegment::CubicBezier {
                start,
                control_start,
                control_end,
                end,
            }).spec_reversed() == (PathSegment::CubicBezier {
                start: end,
                control_start: control_end,
                control_end: control_start,
                end: start,
            }),
        segment.finite() <==> segment.spec_reversed().finite(),
{
}

/// A path drawn the other way round has the same segments, each drawn the other way round, from
/// the last one to the first.
pub proof fn law_a_reversed_path_goes_back(segments: Seq<PathSegment>, i: int)
    requires
        0 <= i < segments.len(),
    ensures
        reversed_path(segments).len() == segments.len(),
        reversed_path(segments)[segments.len() - 1 - i].spec_start() == segments[i].spec_end(),
        reversed_path(segments)[segments.len() - 1 - i].spec_end() == segments[i].spec_start(),
        reversed_path(segments)[0].spec_start() == segments.last().spec_end(),
{
}

/// Only a repetition of the first vertex is left out at the end, and nothing else.
pub proof fn law_only_a_repeated_vertex_is_left_out(vertices: Seq<PointMm>)
    ensures
        without_closing(vertices) == vertices || (vertices.len() > 0 && same_point(
            vertices[0],
            vertices.last(),
        ) && without_closing(vertices) == vertices.take(vertices.len() - 1)),
        vertices.len() > 1 && !same_point(vertices[0], vertices.last()) ==> without_closing(
            vertices,
        ) == vertices,
        forall|point: PointMm|
            #![trigger vertices.push(point)]
            vertices.len() > 0 && same_point(vertices[0], point) ==> without_closing(
                vertices.push(point),
            ) == vertices,
{
    assert forall|point: PointMm|
        #![trigger vertices.push(point)]
        vertices.len() > 0 && same_point(vertices[0], point) implies without_closing(
        vertices.push(point),
    ) == vertices by {
        assert(vertices.push(point).drop_last() =~= vertices);
    }
    if vertices.len() > 0 {
        assert(vertices.drop_last() =~= vertices.take(vertices.len() - 1));
    }
}

/// A path is refused for the first thing that is wrong with it, and accepted if nothing is:
/// every coordinate is finite, every segment starts where the one before it ends, and the last
/// one ends where the first one starts.
pub proof fn law_closed_paths_are_accepted(segments: Seq<PathSegment>)
    ensures
        path_error(segments) is None <==> {
            &&& segments.len() > 0
            &&& forall|i: int|
                0 <= i < segments.len() ==> (#[trigger] segments[i]).spec_start().finite()
                    && segments[i].spec_end().finite() && segments[i].finite()
            &&& forall|i: int|
                0 <= i && i + 1 < segments.len() ==> continuous(
                    (#[trigger] segments[i]).spec_end(),
                    segments[i + 1].spec_start(),
                )
            &&& continuous(segments[segments.len() - 1].spec_end(), segments[0].spec_start())
        },
        path_error(segments) == Some(DomainError::NoSegments) <==> segments.len() == 0,
        path_error(segments) == Some(DomainError::OpenPath) ==> !continuous(
            segments.last().spec_end(),
            segments[0].spec_start(),
        ),
{
    if path_error(segments) is None {
        assert forall|i: int| 0 <= i && i + 1 < segments.len() implies continuous(
            (#[trigger] segments[i]).spec_end(),
            segments[i + 1].spec_start(),
        ) by {
            assert(joined_at(segments, i));
        }
        assert forall|i: int| 0 <= i < segments.len() implies (
        #[trigger] segments[i]).spec_start().finite() && segments[i].spec_end().finite()
            && segments[i].finite() by {
            assert(segments[i].finite());
        }
    } else if segments.len() > 0 && all_finite(segments) && !all_joined(segments) {
        let i = choose|i: int| 0 <= i < segments.len() - 1 && !#[trigger] joined_at(segments, i);
        assert(!continuous(segments[i].spec_end(), segments[i + 1].spec_start()));
    }
}

} // verus!
