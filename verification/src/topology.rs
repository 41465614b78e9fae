//! The static road graph: lanes, the turns that join them inside
//! intersections, and for each intersection the pairs of turns that may
//! never be in use together.

use vstd::prelude::*;
use crate::units::{Distance, Speed};

verus! {

/// The place of a lane in the map's list of lanes.
#[derive(Clone, Copy, Debug, PartialEq, Eq, Hash, Structural)]
pub struct LaneID(pub usize);

/// The place of a turn in the map's list of turns.
#[derive(Clone, Copy, Debug, PartialEq, Eq, Hash, Structural)]
pub struct TurnID(pub usize);

/// The place of an intersection in the map's list of intersections.
#[derive(Clone, Copy, Debug, PartialEq, Eq, Hash, Structural)]
pub struct IntersectionID(pub usize);

/// A segment a car can be on: a lane, or a turn through an intersection.
#[derive(Clone, Copy, Debug, PartialEq, Eq, Hash, Structural)]
pub enum Traversable {
    Lane(LaneID),
    Turn(TurnID),
}

impl Traversable {
    /// The number of the lane, for a step that is one.
    pub open spec fn lane_index(self) -> int {
        match self {
            Traversable::Lane(l) => l.0 as int,
            Traversable::Turn(_) => 0,
        }
    }

    /// The number of the turn, for a step that is one.
    pub open spec fn turn_index(self) -> int {
        match self {
            Traversable::Lane(_) => 0,
            Traversable::Turn(t) => t.0 as int,
        }
    }
}

#[derive(Clone, Copy, Debug, PartialEq, Eq, Hash, Structural)]
pub enum LaneType {
    Driving,
    Parking,
    Sidewalk,
    Biking,
    Bus,
}

#[derive(Clone, Copy, Debug, PartialEq, Eq, Hash, Structural)]
pub enum TurnType {
    Straight,
    Right,
    Left,
    LaneChange,
}

#[derive(Clone, Copy, Debug)]
pub struct Lane {
    pub length: Distance,
    pub speed_limit: Speed,
    pub lane_type: LaneType,
    /// A driving lane of the same road that runs the other way, where the
    /// road has one.
    pub other_side: Option<LaneID>,
}

impl Lane {
    pub open spec fn is_driving_spec(&self) -> bool {
        self.lane_type == LaneType::Driving
    }

    #[verifier::when_used_as_spec(is_driving_spec)]
    pub fn is_driving(&self) -> (b: bool)
        ensures
            b == self.is_driving_spec(),
    {
        self.lane_type == LaneType::Driving
    }
}

#[derive(Clone, Copy, Debug)]
pub struct Turn {
    /// The lane the turn leaves.
    pub src: LaneID,
    /// The lane the turn reaches.
    pub dst: LaneID,
    /// The intersection the turn crosses.
    pub parent: IntersectionID,
    pub length: Distance,
    pub speed_limit: Speed,
    pub turn_type: TurnType,
}

#[derive(Clone, Debug)]
pub struct Intersection {
    /// The pairs of turns of this intersection that cross or merge. The
    /// order inside a pair, and of the pairs, means nothing.
    pub conflicts: Vec<(TurnID, TurnID)>,
}

/// Whether a list of pairs names `a` and `b` as conflicting. A turn never
/// conflicts with itself: cars that follow one another through the same turn
/// are kept apart by its queue.
pub open spec fn conflict_in(table: Seq<(TurnID, TurnID)>, a: TurnID, b: TurnID) -> bool {
    a != b && exists|k: int|
        0 <= k < table.len() && (#[trigger] table[k] == (a, b) || table[k] == (b, a))
}

/// Whether a list of pairs names `a` and `b` as conflicting.
pub fn turns_conflict(table: &Vec<(TurnID, TurnID)>, a: TurnID, b: TurnID) -> (hit: bool)
    ensures
        hit == conflict_in(table@, a, b),
{
    if a == b {
        return false;
    }
    let mut k: usize = 0;
    while k < table.len()
        invariant
            k <= table.len(),
            a != b,
            forall|j: int| 0 <= j < k ==> !(#[trigger] table@[j] == (a, b) || table@[j] == (b, a)),
        decreases table.len() - k,
    {
        let pair = table[k];
        if (pair.0 == a && pair.1 == b) || (pair.0 == b && pair.1 == a) {
            assert(table@[k as int] == (a, b) || table@[k as int] == (b, a));
            return true;
        }
        k += 1;
    }
    false
}

#[derive(Clone, Debug)]
pub struct MapTopology {
    pub lanes: Vec<Lane>,
    pub turns: Vec<Turn>,
    pub intersections: Vec<Intersection>,
}

impl MapTopology {
    /// Turn `t` joins two lanes of this map inside one of its intersections.
    pub open spec fn turn_ok(&self, t: int) -> bool {
        &&& self.turns@[t].src.0 < self.lanes@.len()
        &&& self.turns@[t].dst.0 < self.lanes@.len()
        &&& self.turns@[t].parent.0 < self.intersections@.len()
    }

    /// Entry `k` of the conflict table of intersection `i` names two turns
    /// that cross that intersection.
    pub open spec fn conflict_ok(&self, i: int, k: int) -> bool {
        let pair = self.intersections@[i].conflicts@[k];
        &&& pair.0.0 < self.turns@.len()
        &&& pair.1.0 < self.turns@.len()
        &&& self.turns@[pair.0.0 as int].parent == IntersectionID(i as usize)
        &&& self.turns@[pair.1.0 as int].parent == IntersectionID(i as usize)
    }

    /// Every entry of the conflict table of intersection `i` is sound.
    pub open spec fn conflicts_ok(&self, i: int) -> bool {
        forall|k: int| 0 <= k < self.intersections@[i].conflicts@.len() ==> #[trigger] self.conflict_ok(i, k)
    }

    /// The lane that lane `l` names as its other side exists.
    pub open spec fn lane_ok(&self, l: int) -> bool {
        match self.lanes@[l].other_side {
            Some(o) => o.0 < self.lanes@.len(),
            None => true,
        }
    }

    /// The graph has no dangling reference: every turn, conflict entry and
    /// lane names only things that exist.
    pub open spec fn wf(&self) -> bool {
        &&& forall|l: int| 0 <= l < self.lanes@.len() ==> #[trigger] self.lane_ok(l)
        &&& forall|t: int| 0 <= t < self.turns@.len() ==> #[trigger] self.turn_ok(t)
        &&& forall|i: int| 0 <= i < self.intersections@.len() ==> #[trigger] self.conflicts_ok(i)
    }

    /// The length of a segment of this map.
    pub open spec fn length_of(&self, on: Traversable) -> Distance {
        match on {
            Traversable::Lane(l) => self.lanes@[l.0 as int].length,
            Traversable::Turn(t) => self.turns@[t.0 as int].length,
        }
    }

    /// Step `k` of a route is sound: a lane of this map at an even place; at
    /// an odd place a turn of this map that leaves the lane before it and
    /// reaches the lane after it.
    pub open spec fn step_ok(&self, steps: Seq<Traversable>, k: int) -> bool {
        if k % 2 == 0 {
            steps[k] matches Traversable::Lane(l) && l.0 < self.lanes@.len()
        } else {
            &&& steps[k] matches Traversable::Turn(t)
            &&& t.0 < self.turns@.len()
            &&& k + 1 < steps.len()
            &&& steps[k - 1] == Traversable::Lane(self.turns@[t.0 as int].src)
            &&& steps[k + 1] == Traversable::Lane(self.turns@[t.0 as int].dst)
        }
    }

    /// The steps make a route over this map: lanes and turns in alternation,
    /// from a lane to a lane, each turn joining the lanes on either side of
    /// it.
    pub open spec fn valid_route(&self, steps: Seq<Traversable>) -> bool {
        &&& steps.len() > 0
        &&& forall|k: int| 0 <= k < steps.len() ==> #[trigger] self.step_ok(steps, k)
    }

    /// Tells whether the steps make a route over this map.
    pub fn check_route(&self, steps: &Vec<Traversable>) -> (ok: bool)
        ensures
            ok == self.valid_route(steps@),
    {
        if steps.len() == 0 {
            return false;
        }
        let mut k: usize = 0;
        while k < steps.len()
            invariant
                k <= steps@.len(),
                forall|j: int| 0 <= j < k ==> #[trigger] self.step_ok(steps@, j),
            decreases steps@.len() - k,
        {
            let sound = if k % 2 == 0 {
                match steps[k] {
                    Traversable::Lane(l) => l.0 < self.lanes.len(),
                    Traversable::Turn(_) => false,
                }
            } else {
                match steps[k] {
                    Traversable::Lane(_) => false,
                    Traversable::Turn(t) => {
                        if t.0 < self.turns.len() && k + 1 < steps.len() {
                            let turn = &self.turns[t.0];
                            steps[k - 1] == Traversable::Lane(turn.src) && steps[k + 1] == Traversable::Lane(
                                turn.dst,
                            )
                        } else {
                            false
                        }
                    },
                }
            };
            if !sound {
                assert(!self.step_ok(steps@, k as int));
                return false;
            }
            k += 1;
        }
        true
    }

    /// The identities of the map's turns, in order.
    pub open spec fn all_turn_ids(&self) -> Seq<TurnID> {
        Seq::new(self.turns@.len(), |t: int| TurnID(t as usize))
    }

    /// Picks the turns that leave lane `l`.
    pub open spec fn leaves(&self, l: LaneID) -> spec_fn(TurnID) -> bool {
        |t: TurnID| self.turns@[t.0 as int].src == l
    }

    /// The turns that leave lane `l`, in the order of the map.
    pub open spec fn turns_from_lane_spec(&self, l: LaneID) -> Seq<TurnID> {
        self.all_turn_ids().filter(self.leaves(l))
    }

    /// The turns that leave lane `l`, in the order of the map.
    pub fn turns_from_lane(&self, l: LaneID) -> (found: Vec<TurnID>)
        ensures
            found@ == self.turns_from_lane_spec(l),
            forall|k: int|
                0 <= k < found@.len() ==> (#[trigger] found@[k]).0 < self.turns@.len() && self.turns@[found@[k].0 as int].src
                    == l,
    {
        let mut found: Vec<TurnID> = Vec::new();
        let mut t: usize = 0;
        proof {
            reveal(Seq::filter);
            assert(self.all_turn_ids().subrange(0, 0) =~= Seq::<TurnID>::empty());
            assert(found@ =~= self.all_turn_ids().subrange(0, 0).filter(self.leaves(l)));
        }
        while t < self.turns.len()
            invariant
                t <= self.turns@.len(),
                found@ == self.all_turn_ids().subrange(0, t as int).filter(self.leaves(l)),
                forall|k: int|
                    0 <= k < found@.len() ==> (#[trigger] found@[k]).0 < self.turns@.len()
                        && self.turns@[found@[k].0 as int].src == l,
            decreases self.turns@.len() - t,
        {
            proof {
                let seen = self.all_turn_ids().subrange(0, t as int);
                assert(self.all_turn_ids().subrange(0, t + 1) =~= seen.push(TurnID(t)));
                seen.lemma_filter_push(TurnID(t), self.leaves(l));
            }
            if self.turns[t].src == l {
                found.push(TurnID(t));
            }
            t += 1;
        }
        assert(self.all_turn_ids().subrange(0, self.turns@.len() as int) =~= self.all_turn_ids());
        found
    }

    fn check_lanes(&self) -> (ok: bool)
        ensures
            ok == (forall|l: int| 0 <= l < self.lanes@.len() ==> #[trigger] self.lane_ok(l)),
    {
        let mut l: usize = 0;
        while l < self.lanes.len()
            invariant
                l <= self.lanes@.len(),
                forall|j: int| 0 <= j < l ==> #[trigger] self.lane_ok(j),
            decreases self.lanes@.len() - l,
        {
            match self.lanes[l].other_side {
                Some(o) => {
                    if o.0 >= self.lanes.len() {
                        assert(!self.lane_ok(l as int));
                        return false;
                    }
                },
                None => {},
            }
            l += 1;
        }
        true
    }

    fn check_turns(&self) -> (ok: bool)
        ensures
            ok == (forall|t: int| 0 <= t < self.turns@.len() ==> #[trigger] self.turn_ok(t)),
    {
        let mut t: usize = 0;
        while t < self.turns.len()
            invariant
                t <= self.turns@.len(),
                forall|j: int| 0 <= j < t ==> #[trigger] self.turn_ok(j),
            decreases self.turns@.len() - t,
        {
            let turn = &self.turns[t];
            if turn.src.0 >= self.lanes.len() || turn.dst.0 >= self.lanes.len()
                || turn.parent.0 >= self.intersections.len() {
                assert(!self.turn_ok(t as int));
                return false;
            }
            t += 1;
        }
        true
    }

    fn check_conflicts(&self, i: usize) -> (ok: bool)
        requires
            i < self.intersections@.len(),
        ensures
            ok == self.conflicts_ok(i as int),
    {
        let table = &self.intersections[i].conflicts;
        let mut k: usize = 0;
        while k < table.len()
            invariant
                i < self.intersections@.len(),
                table == &self.intersections@[i as int].conflicts,
                k <= table@.len(),
                forall|j: int| 0 <= j < k ==> #[trigger] self.conflict_ok(i as int, j),
            decreases table@.len() - k,
        {
            let pair = table[k];
            if pair.0.0 >= self.turns.len() || pair.1.0 >= self.turns.len() {
                assert(!self.conflict_ok(i as int, k as int));
                return false;
            }
            if self.turns[pair.0.0].parent.0 != i || self.turns[pair.1.0].parent.0 != i {
                assert(!self.conflict_ok(i as int, k as int));
                return false;
            }
            k += 1;
        }
        true
    }

    /// Tells whether the graph is free of dangling references, which is what
    /// the simulation asks of a map before it will run on it.
    pub fn is_well_formed(&self) -> (ok: bool)
        ensures
            ok == self.wf(),
    {
        if !self.check_lanes() {
            return false;
        }
        if !self.check_turns() {
            return false;
        }
        let mut i: usize = 0;
        while i < self.intersections.len()
            invariant
                i <= self.intersections@.len(),
                forall|j: int| 0 <= j < i ==> #[trigger] self.conflicts_ok(j),
            decreases self.intersections@.len() - i,
        {
            if !self.check_conflicts(i) {
                return false;
            }
            i += 1;
        }
        true
    }
}

} // verus!
