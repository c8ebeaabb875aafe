//! Shared read flights of one path.

use vstd::prelude::*;

use crate::timeline::{self, Requirement, SequencePoint};

verus! {

/// How a read flight ended.
#[derive(Clone, Copy, Debug, PartialEq, Eq, Structural)]
pub enum FlightEnd<T> {
    /// The read gave a result or failed.
    Finished(T),
    /// The leader was dropped before the read ended.
    Cancelled,
}

/// One backend read that compatible readers of a path share.
#[derive(Debug)]
pub struct Flight<T> {
    invoked: SequencePoint,
    outcome: Option<FlightEnd<T>>,
}

impl<T> Flight<T> {
    /// The point at which the read was invoked.
    pub closed spec fn invoked_at(&self) -> u64 {
        self.invoked@
    }

    /// How the flight ended.
    pub closed spec fn ended(&self) -> Option<FlightEnd<T>> {
        self.outcome
    }

    /// Starts a flight.
    pub fn new(invoked: SequencePoint) -> (r: Self)
        ensures
            r.invoked_at() == invoked@,
            r.ended() is None,
    {
        Flight { invoked, outcome: None }
    }

    /// Ends the flight; the first end stands. Reports whether the waiters are
    /// to be woken.
    pub fn finish(&mut self, outcome: FlightEnd<T>) -> (r: bool)
        ensures
            r == old(self).ended() is None,
            final(self).invoked_at() == old(self).invoked_at(),
            final(self).ended() == if old(self).ended() is None {
                Some(outcome)
            } else {
                old(self).ended()
            },
    {
        if self.outcome.is_none() {
            self.outcome = Some(outcome);
            true
        } else {
            false
        }
    }

    /// Returns how the flight ended, when it has.
    pub fn outcome(&self) -> (r: &Option<FlightEnd<T>>)
        ensures
            *r == self.ended(),
    {
        &self.outcome
    }

    /// Reports whether a reader with this requirement may join: the flight's
    /// answer is at least as current as its invocation.
    pub fn admits(&self, requirement: Requirement) -> (r: bool)
        ensures
            r == timeline::satisfied(requirement, self.invoked_at()),
    {
        requirement.is_satisfied_by(self.invoked)
    }
}

/// How a reader of a path goes on.
#[derive(Clone, Copy, Debug, PartialEq, Eq, Structural)]
pub enum ReadAdmission {
    /// The reader waits for the flight that is under way.
    Join,
    /// The reader takes the path's permit and leads.
    Lead,
}

/// The read flight that a path has under way.
#[derive(Debug)]
pub struct PathLane {
    flight: Option<(u64, SequencePoint)>,
    next: u64,
}

/// What a path has under way.
pub struct LaneView {
    /// The flight under way, with the point at which it was invoked.
    pub flight: Option<(u64, u64)>,
    /// The identity of the next flight.
    pub next: u64,
}

impl View for PathLane {
    type V = LaneView;

    closed spec fn view(&self) -> LaneView {
        LaneView {
            flight: match self.flight {
                Some((id, invoked)) => Some((id, invoked@)),
                None => None,
            },
            next: self.next,
        }
    }
}

/// A reader joins a flight under way whose answer will satisfy it.
pub open spec fn joins(flight: Option<(u64, u64)>, requirement: Requirement) -> bool {
    flight matches Some((_, invoked)) && timeline::satisfied(requirement, invoked)
}

impl PathLane {
    /// A path with no flight under way.
    pub fn new() -> (r: Self)
        ensures
            r@ == (LaneView { flight: None, next: 0 }),
    {
        PathLane { flight: None, next: 0 }
    }

    /// Decides whether a reader joins the flight under way.
    pub fn admit_read(&self, requirement: Requirement) -> (r: ReadAdmission)
        ensures
            r == ReadAdmission::Join <==> joins(self@.flight, requirement),
            r == (match self@.flight {
                Some((_, invoked)) => if timeline::satisfied(requirement, invoked) {
                    ReadAdmission::Join
                } else {
                    ReadAdmission::Lead
                },
                None => ReadAdmission::Lead,
            }),
    {
        match self.flight {
            Some((_, invoked)) => if requirement.is_satisfied_by(invoked) {
                ReadAdmission::Join
            } else {
                ReadAdmission::Lead
            },
            None => ReadAdmission::Lead,
        }
    }

    /// Starts a flight under the path's permit, and names it. The permit's
    /// holder has no other flight under way.
    pub fn lead_read(&mut self, invoked: SequencePoint) -> (r: u64)
        requires
            old(self)@.flight is None,
        ensures
            r == old(self)@.next,
            final(self)@ == (LaneView {
                flight: Some((r, invoked@)),
                next: old(self)@.next.wrapping_add(1),
            }),
    {
        let id: u64 = self.next;
        self.flight = Some((id, invoked));
        self.next = self.next.wrapping_add(1);
        id
    }

    /// Removes a flight that ended, and no other.
    pub fn remove(&mut self, id: u64)
        ensures
            final(self)@ == (LaneView {
                flight: match old(self)@.flight {
                    Some((current, invoked)) => if current == id {
                        None
                    } else {
                        Some((current, invoked))
                    },
                    None => None,
                },
                next: old(self)@.next,
            }),
    {
        let current = match self.flight {
            Some((current, _)) => current == id,
            None => false,
        };
        if current {
            self.flight = None;
        }
    }
}

/// Law: a reader that joins a flight gets an answer that satisfies its
/// requirement, whatever watermark at or after the invocation the answer has.
pub proof fn law_joined_answers_satisfy(requirement: Requirement, invoked: u64, mark: u64)
    requires
        timeline::satisfied(requirement, invoked),
        mark >= invoked,
    ensures
        timeline::satisfied(requirement, mark),
{
}

/// Law: a reader joins only a flight that was invoked at the point it asks for or
/// later, so that whatever the flight brings is late enough; and it joins every
/// such flight.
pub proof fn law_readers_join_only_late_flights(id: u64, invoked: u64, point: SequencePoint)
    ensures
        joins(Some((id, invoked)), Requirement::AtLeast(point)) <==> invoked >= point@,
        joins(Some((id, invoked)), Requirement::Any),
        !joins(None, Requirement::Any),
        !joins(None, Requirement::AtLeast(point)),
{
}

} // verus!
