//! An agent that follows waypoints: what it does on a tick, given whether
//! it has arrived at the waypoint in front of it.

use vstd::prelude::*;
use crate::coords::GridCoord;

verus! {

/// The waypoints an agent still has to pass, next one first. `None` is an
/// idle agent.
pub struct GridAgent {
    pub path: Option<Vec<GridCoord>>,
}

/// What an agent does on a tick.
#[derive(Clone, Copy, Debug, PartialEq, Eq)]
pub enum Steering {
    /// Nothing: it has no waypoint left.
    Idle,
    /// It has arrived at this waypoint, drops it and does not move.
    Arrived(GridCoord),
    /// It moves towards this waypoint.
    MoveTowards(GridCoord),
}

impl View for GridAgent {
    type V = Option<Seq<GridCoord>>;

    /// The waypoints still to pass, or `None` for an idle agent.
    open spec fn view(&self) -> Option<Seq<GridCoord>> {
        match self.path {
            Some(p) => Some(p@),
            None => None,
        }
    }
}

/// The waypoint in front of an agent with the waypoints `path`, if it has
/// one.
pub open spec fn front(path: Option<Seq<GridCoord>>) -> Option<GridCoord> {
    match path {
        Some(p) => if p.len() > 0 {
            Some(p[0])
        } else {
            None
        },
        None => None,
    }
}

/// What an agent with the waypoints `path` does on a tick, and the
/// waypoints it has after it. Without a waypoint it becomes idle; having
/// arrived at the one in front it drops that one and stays where it is;
/// else it moves towards that one and keeps its path.
pub open spec fn tick(path: Option<Seq<GridCoord>>, reached: bool) -> (
    Steering,
    Option<Seq<GridCoord>>,
) {
    match front(path) {
        None => (Steering::Idle, None),
        Some(next) => if reached {
            (Steering::Arrived(next), Some(path->0.drop_first()))
        } else {
            (Steering::MoveTowards(next), path)
        },
    }
}

impl GridAgent {
    /// An agent with `path` to follow.
    pub fn new(path: Option<Vec<GridCoord>>) -> (agent: GridAgent)
        ensures
            agent.path == path,
    {
        GridAgent { path }
    }

    /// The waypoint in front of the agent, if it has one.
    pub fn next_waypoint(&self) -> (next: Option<GridCoord>)
        ensures
            next == front(self@),
    {
        match &self.path {
            Some(p) => if p.len() > 0 {
                Some(p[0])
            } else {
                None
            },
            None => None,
        }
    }
}

/// One tick of an agent. `reached` says whether the agent stands within its
/// arrival margin of the waypoint in front of it, on both axes; without a
/// waypoint it says nothing.
pub fn follow_path(agent: &mut GridAgent, reached: bool) -> (action: Steering)
    ensures
        (action, final(agent)@) == tick(old(agent)@, reached),
{
    let next = agent.next_waypoint();
    match next {
        None => {
            agent.path = None;
            Steering::Idle
        },
        Some(waypoint) => {
            if reached {
                match &mut agent.path {
                    Some(path) => {
                        path.remove(0);
                        assert(path@ =~= old(agent).path->0@.drop_first());
                    },
                    None => {},
                }
                Steering::Arrived(waypoint)
            } else {
                Steering::MoveTowards(waypoint)
            }
        },
    }
}

} // verus!
