//! Sequence points: the local logical clock that orders currentness evidence.

use vstd::prelude::*;

verus! {

/// A point on the database-local timeline, in nanoseconds.
#[derive(Clone, Copy, Debug, PartialEq, Eq, PartialOrd, Ord, Hash, Structural)]
pub struct SequencePoint {
    /// Nanoseconds since the timeline's origin.
    pub raw: u64,
}

impl View for SequencePoint {
    type V = u64;

    open spec fn view(&self) -> u64 {
        self.raw
    }
}

impl SequencePoint {
    /// Restores a point from its raw value.
    pub fn from_raw(raw: u64) -> (r: Self)
        ensures
            r@ == raw,
    {
        SequencePoint { raw }
    }

    /// Returns the raw value of the point.
    pub fn raw(self) -> (r: u64)
        ensures
            r == self@,
    {
        self.raw
    }

    /// Returns the later of two points.
    pub fn later(self, other: Self) -> (r: Self)
        ensures
            r@ == if self@ >= other@ { self@ } else { other@ },
    {
        if self.raw >= other.raw {
            self
        } else {
            other
        }
    }
}

impl Default for SequencePoint {
    /// The point before every allocated one.
    fn default() -> (r: Self)
        ensures
            r@ == 0,
    {
        SequencePoint { raw: 0 }
    }
}

/// Allocates the points of one database-local timeline: unique, increasing,
/// and following a monotonic clock where it runs ahead.
#[derive(Debug)]
pub struct Timeline {
    last: u64,
}

impl View for Timeline {
    type V = u64;

    /// The last allocated point.
    closed spec fn view(&self) -> u64 {
        self.last
    }
}

impl Timeline {
    /// Creates a timeline with no allocated points.
    pub fn new() -> (r: Self)
        ensures
            r@ == 0,
    {
        Timeline { last: 0 }
    }

    /// Creates a timeline whose points all follow `point`.
    pub fn starting_after(point: SequencePoint) -> (r: Self)
        ensures
            r@ == point@,
    {
        Timeline { last: point.raw }
    }

    /// Allocates a point: that of the clock, unless it was passed already.
    pub fn now(&mut self, clock: u64) -> (r: SequencePoint)
        requires
            old(self)@ < u64::MAX,
        ensures
            r@ == if clock > old(self)@ {
                clock
            } else {
                (old(self)@ + 1) as u64
            },
            r@ > old(self)@,
            final(self)@ == r@,
    {
        if clock > self.last {
            self.last = clock;
        } else {
            self.last = self.last + 1;
        }
        SequencePoint { raw: self.last }
    }

    /// Returns the point that lies `max_staleness` nanoseconds before the clock,
    /// or the origin.
    pub fn approximate_cutoff(&self, clock: u64, max_staleness: u64) -> (r: SequencePoint)
        ensures
            r@ == if clock >= max_staleness {
                clock - max_staleness
            } else {
                0
            },
    {
        SequencePoint { raw: clock.saturating_sub(max_staleness) }
    }
}

/// The freshness requirement a cached entry must satisfy before it is served.
#[derive(Clone, Copy, Debug, PartialEq, Eq, Structural)]
pub enum Requirement {
    /// Accept any usable cached entry without a backend check; read the backend
    /// only on a miss.
    Any,
    /// Accept an entry only when its watermark is at least this point;
    /// otherwise check through the backend.
    AtLeast(SequencePoint),
}

/// An entry confirmed current at `mark` satisfies the requirement.
pub open spec fn satisfied(req: Requirement, mark: u64) -> bool {
    match req {
        Requirement::Any => true,
        Requirement::AtLeast(point) => mark >= point@,
    }
}

impl Requirement {
    /// Returns the stronger of two requirements.
    pub fn stricter(self, other: Self) -> (r: Self)
        ensures
            r == match (self, other) {
                (Requirement::Any, req) => req,
                (req, Requirement::Any) => req,
                (Requirement::AtLeast(left), Requirement::AtLeast(right)) => if left@ >= right@ {
                    Requirement::AtLeast(left)
                } else {
                    Requirement::AtLeast(right)
                },
            },
            forall|mark: u64|
                satisfied(r, mark) <==> satisfied(self, mark) && satisfied(other, mark),
    {
        match (self, other) {
            (Requirement::Any, req) => req,
            (req, Requirement::Any) => req,
            (Requirement::AtLeast(left), Requirement::AtLeast(right)) => Requirement::AtLeast(
                left.later(right),
            ),
        }
    }

    /// Builds a requirement accepting evidence no older than `max_staleness`
    /// nanoseconds at the clock of `timeline`; without a bound, any evidence.
    pub fn within(timeline: &Timeline, clock: u64, max_staleness: Option<u64>) -> (r: Self)
        ensures
            match max_staleness {
                None => r == Requirement::Any,
                Some(nanos) => r matches Requirement::AtLeast(point) && point@ == if clock
                    >= nanos {
                    clock - nanos
                } else {
                    0
                },
            },
    {
        match max_staleness {
            None => Requirement::Any,
            Some(nanos) => Requirement::AtLeast(timeline.approximate_cutoff(clock, nanos)),
        }
    }

    /// Reports whether an entry confirmed current at `evidence` satisfies the
    /// requirement.
    pub fn is_satisfied_by(self, evidence: SequencePoint) -> (r: bool)
        ensures
            r == satisfied(self, evidence@),
    {
        match self {
            Requirement::Any => true,
            Requirement::AtLeast(point) => evidence.raw >= point.raw,
        }
    }
}

/// A point that evidence must reach to count as current.
#[derive(Clone, Copy, Debug, PartialEq, Eq)]
pub struct CurrentnessBarrier {
    point: SequencePoint,
}

impl View for CurrentnessBarrier {
    type V = u64;

    closed spec fn view(&self) -> u64 {
        self.point@
    }
}

impl CurrentnessBarrier {
    /// Places a barrier at a point.
    pub fn at(point: SequencePoint) -> (r: Self)
        ensures
            r@ == point@,
    {
        CurrentnessBarrier { point }
    }

    /// Reports whether evidence reaches the barrier.
    pub fn is_reached_by(self, evidence: SequencePoint) -> (r: bool)
        ensures
            r == (evidence@ >= self@),
    {
        evidence.raw >= self.point.raw
    }
}

/// Law: evidence that satisfies a requirement still does when it advances.
pub proof fn law_later_evidence_satisfies(req: Requirement, mark: u64, later: u64)
    requires
        satisfied(req, mark),
        later >= mark,
    ensures
        satisfied(req, later),
{
}

/// Law: a reader that asks for a point accepts evidence of that point or later and
/// none that is older; one that asks for none accepts any.
pub proof fn law_requirement_bounds_staleness(point: SequencePoint, mark: u64)
    ensures
        satisfied(Requirement::AtLeast(point), mark) <==> mark >= point@,
        satisfied(Requirement::Any, mark),
{
}

} // verus!
