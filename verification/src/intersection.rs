//! The arbiter of one intersection. It keeps the turns that cars are
//! crossing, and the requests for turns that had to wait because they
//! conflict with one of those.

use vstd::prelude::*;
use crate::topology::{conflict_in, turns_conflict, TurnID};
use crate::units::Time;
use crate::vehicle::CarID;

verus! {

/// A car crossing the intersection by a turn.
#[derive(Clone, Copy, Debug, PartialEq, Eq, Hash, Structural)]
pub struct Movement {
    pub turn: TurnID,
    pub car: CarID,
}

/// A car's wish to cross the intersection by a turn, and when it was made.
#[derive(Clone, Copy, Debug, PartialEq, Eq, Hash, Structural)]
pub struct Request {
    pub turn: TurnID,
    pub car: CarID,
    pub time: Time,
}

impl Request {
    /// Whether this request is served before the other: the earlier one
    /// goes first, and of two made at the same time the one of the car with
    /// the lower identity.
    pub open spec fn before_spec(self, other: Request) -> bool {
        self.time < other.time || (self.time == other.time && self.car.0 < other.car.0)
    }

    #[verifier::when_used_as_spec(before_spec)]
    pub fn before(self, other: Request) -> (first: bool)
        ensures
            first == self.before_spec(other),
    {
        self.time < other.time || (self.time == other.time && self.car.0 < other.car.0)
    }

    /// The movement that begins when the request is granted.
    pub open spec fn movement(self) -> Movement {
        Movement { turn: self.turn, car: self.car }
    }
}

/// No turn in use conflicts with `turn`.
pub open spec fn compatible(table: Seq<(TurnID, TurnID)>, active: Seq<Movement>, turn: TurnID) -> bool {
    forall|i: int| 0 <= i < active.len() ==> !conflict_in(table, (#[trigger] active[i]).turn, turn)
}

/// No two turns in use conflict.
pub open spec fn conflict_free(table: Seq<(TurnID, TurnID)>, active: Seq<Movement>) -> bool {
    forall|i: int, j: int|
        0 <= i < active.len() && 0 <= j < active.len() ==> !conflict_in(
            table,
            (#[trigger] active[i]).turn,
            (#[trigger] active[j]).turn,
        )
}

/// Every request that waits does so for a reason: its turn conflicts with
/// one in use.
pub open spec fn all_blocked(table: Seq<(TurnID, TurnID)>, active: Seq<Movement>, waiting: Seq<Request>) -> bool {
    forall|k: int| 0 <= k < waiting.len() ==> !compatible(table, active, (#[trigger] waiting[k]).turn)
}

/// The waiting requests stand in the order in which they are served.
pub open spec fn in_order(waiting: Seq<Request>) -> bool {
    forall|i: int, j: int|
        0 <= i < j < waiting.len() ==> !(#[trigger] waiting[j]).before_spec(#[trigger] waiting[i])
}

/// The place at or after `from` where `r` joins the waiting requests: in
/// front of the first one that it is served before.
pub open spec fn place_for(waiting: Seq<Request>, r: Request, from: int) -> int
    decreases waiting.len() - from,
{
    if from >= waiting.len() {
        waiting.len() as int
    } else if r.before_spec(waiting[from]) {
        from
    } else {
        place_for(waiting, r, from + 1)
    }
}

/// The waiting requests with `r` among them.
pub open spec fn enqueued(waiting: Seq<Request>, r: Request) -> Seq<Request> {
    waiting.insert(place_for(waiting, r, 0), r)
}

/// The place at or after `from` of the first movement equal to `m`, or the
/// number of movements if there is none.
pub open spec fn first_place_of(active: Seq<Movement>, m: Movement, from: int) -> int
    decreases active.len() - from,
{
    if from >= active.len() {
        active.len() as int
    } else if active[from] == m {
        from
    } else {
        first_place_of(active, m, from + 1)
    }
}

/// The movements without the first one equal to `m`.
pub open spec fn without_first(active: Seq<Movement>, m: Movement) -> Seq<Movement> {
    let at = first_place_of(active, m, 0);
    if at < active.len() {
        active.remove(at)
    } else {
        active
    }
}

/// What an arbiter holds.
pub struct IntersectionView {
    /// The pairs of turns that conflict.
    pub conflicts: Seq<(TurnID, TurnID)>,
    /// The movements in progress, in the order in which they were granted.
    pub active: Seq<Movement>,
    /// The requests that wait, in the order in which they are served.
    pub waiting: Seq<Request>,
}

impl IntersectionView {
    pub open spec fn wf(self) -> bool {
        &&& conflict_free(self.conflicts, self.active)
        &&& all_blocked(self.conflicts, self.active, self.waiting)
        &&& in_order(self.waiting)
    }

    /// The arbiter after a car asked for a turn at `now`: the turn is
    /// granted if it conflicts with none in use, and the request waits
    /// otherwise.
    pub open spec fn requested(self, turn: TurnID, car: CarID, now: Time) -> IntersectionView {
        if compatible(self.conflicts, self.active, turn) {
            IntersectionView { active: self.active.push(Movement { turn, car }), ..self }
        } else {
            IntersectionView { waiting: enqueued(self.waiting, Request { turn, car, time: now }), ..self }
        }
    }

    /// The arbiter after it has looked at the waiting requests from place
    /// `k` on, in order, and granted each one that conflicts with no turn
    /// in use by then.
    pub open spec fn regranted_from(self, k: int) -> IntersectionView
        decreases self.waiting.len() - k,
    {
        if k < 0 || k >= self.waiting.len() {
            self
        } else if compatible(self.conflicts, self.active, self.waiting[k].turn) {
            (IntersectionView {
                active: self.active.push(self.waiting[k].movement()),
                waiting: self.waiting.remove(k),
                ..self
            }).regranted_from(k)
        } else {
            self.regranted_from(k + 1)
        }
    }

    /// The arbiter after a car has left a turn: the movement is over, and
    /// the waiting requests are looked at again.
    pub open spec fn released(self, turn: TurnID, car: CarID) -> IntersectionView {
        (IntersectionView { active: without_first(self.active, Movement { turn, car }), ..self }).regranted_from(0)
    }
}

/// Whether two turns conflict does not depend on the order in which they
/// are named.
pub proof fn lemma_conflict_symmetric(table: Seq<(TurnID, TurnID)>, a: TurnID, b: TurnID)
    ensures
        conflict_in(table, a, b) == conflict_in(table, b, a),
{
    if conflict_in(table, a, b) {
        let k = choose|k: int| 0 <= k < table.len() && (#[trigger] table[k] == (a, b) || table[k] == (b, a));
        assert(table[k] == (b, a) || table[k] == (a, b));
    }
    if conflict_in(table, b, a) {
        let k = choose|k: int| 0 <= k < table.len() && (#[trigger] table[k] == (b, a) || table[k] == (a, b));
        assert(table[k] == (a, b) || table[k] == (b, a));
    }
}

/// A turn that conflicts with one in use still does when more are in use.
proof fn lemma_still_blocked(table: Seq<(TurnID, TurnID)>, active: Seq<Movement>, more: Seq<Movement>, turn: TurnID)
    requires
        !compatible(table, active, turn),
        active.len() <= more.len(),
        forall|i: int| 0 <= i < active.len() ==> active[i] == more[i],
    ensures
        !compatible(table, more, turn),
{
    let i = choose|i: int| 0 <= i < active.len() && conflict_in(table, (#[trigger] active[i]).turn, turn);
    assert(conflict_in(table, more[i].turn, turn));
}

/// Where `r` joins, it is served before the request that then follows it and
/// not before any that precedes it.
pub proof fn lemma_place_for(waiting: Seq<Request>, r: Request, from: int)
    requires
        0 <= from <= waiting.len(),
    ensures
        from <= place_for(waiting, r, from) <= waiting.len(),
        forall|i: int| from <= i < place_for(waiting, r, from) ==> !r.before_spec(#[trigger] waiting[i]),
        place_for(waiting, r, from) < waiting.len() ==> r.before_spec(waiting[place_for(waiting, r, from)]),
    decreases waiting.len() - from,
{
    if from < waiting.len() && !r.before_spec(waiting[from]) {
        lemma_place_for(waiting, r, from + 1);
    }
}

/// Joining keeps the waiting requests in the order in which they are
/// served.
proof fn lemma_enqueued_in_order(waiting: Seq<Request>, r: Request)
    requires
        in_order(waiting),
    ensures
        in_order(enqueued(waiting, r)),
{
    lemma_place_for(waiting, r, 0);
    let p = place_for(waiting, r, 0);
    let after = enqueued(waiting, r);
    assert forall|i: int, j: int| 0 <= i < j < after.len() implies !(#[trigger] after[j]).before_spec(
        #[trigger] after[i],
    ) by {
        if j < p {
            assert(after[i] == waiting[i] && after[j] == waiting[j]);
        } else if j == p {
            assert(after[i] == waiting[i]);
        } else if i == p {
            assert(after[j] == waiting[j - 1]);
            if j - 1 > p {
                assert(!waiting[j - 1].before_spec(waiting[p]));
            }
        } else if i < p {
            assert(after[i] == waiting[i] && after[j] == waiting[j - 1]);
        } else {
            assert(after[i] == waiting[i - 1] && after[j] == waiting[j - 1]);
        }
    }
}

/// Puts a request among those that wait, in front of the first one that it
/// is served before.
pub fn enqueue(waiting: &mut Vec<Request>, r: Request)
    ensures
        final(waiting)@ == enqueued(old(waiting)@, r),
        final(waiting)@.len() == old(waiting)@.len() + 1,
        forall|k: int|
            0 <= k < final(waiting)@.len() ==> #[trigger] final(waiting)@[k] == r || old(waiting)@.contains(
                final(waiting)@[k],
            ),
        in_order(old(waiting)@) ==> in_order(final(waiting)@),
{
    let mut at: usize = 0;
    while at < waiting.len() && !r.before(waiting[at])
        invariant
            at <= waiting@.len(),
            waiting@ == old(waiting)@,
            place_for(waiting@, r, at as int) == place_for(waiting@, r, 0),
        decreases waiting@.len() - at,
    {
        at += 1;
    }
    waiting.insert(at, r);
    proof {
        if in_order(old(waiting)@) {
            lemma_enqueued_in_order(old(waiting)@, r);
        }
        assert forall|k: int| 0 <= k < waiting@.len() implies #[trigger] waiting@[k] == r || old(waiting)@.contains(waiting@[k]) by {
            if k < at {
                assert(waiting@[k] == old(waiting)@[k]);
            } else if k > at {
                assert(waiting@[k] == old(waiting)@[k - 1]);
            }
        }
    }
}

/// The arbiter of one intersection.
pub struct IntersectionController {
    conflicts: Vec<(TurnID, TurnID)>,
    active: Vec<Movement>,
    waiting: Vec<Request>,
}

impl IntersectionController {
    pub closed spec fn view(&self) -> IntersectionView {
        IntersectionView { conflicts: self.conflicts@, active: self.active@, waiting: self.waiting@ }
    }

    /// No two turns in use conflict, every waiting request is blocked by a
    /// turn in use, and the waiting requests stand in the order in which
    /// they are served.
    pub open spec fn wf(&self) -> bool {
        self@.wf()
    }

    /// An idle arbiter for an intersection with the given conflicts.
    pub fn new(conflicts: Vec<(TurnID, TurnID)>) -> (ctrl: IntersectionController)
        ensures
            ctrl.wf(),
            ctrl@.conflicts == conflicts@,
            ctrl@.active == Seq::<Movement>::empty(),
            ctrl@.waiting == Seq::<Request>::empty(),
    {
        IntersectionController { conflicts, active: Vec::new(), waiting: Vec::new() }
    }

    /// Whether a turn conflicts with none in use.
    pub fn is_compatible(&self, turn: TurnID) -> (free: bool)
        ensures
            free == compatible(self@.conflicts, self@.active, turn),
    {
        let mut i: usize = 0;
        while i < self.active.len()
            invariant
                i <= self.active@.len(),
                forall|j: int|
                    0 <= j < i ==> !conflict_in(self.conflicts@, (#[trigger] self.active@[j]).turn, turn),
            decreases self.active@.len() - i,
        {
            if turns_conflict(&self.conflicts, self.active[i].turn, turn) {
                return false;
            }
            i += 1;
        }
        true
    }

    /// Whether the car is crossing by the turn.
    pub fn is_active(&self, turn: TurnID, car: CarID) -> (crossing: bool)
        ensures
            crossing == self@.active.contains(Movement { turn, car }),
    {
        let mut i: usize = 0;
        while i < self.active.len()
            invariant
                i <= self.active@.len(),
                forall|j: int| 0 <= j < i ==> self.active@[j] != (Movement { turn, car }),
            decreases self.active@.len() - i,
        {
            if self.active[i].turn == turn && self.active[i].car == car {
                return true;
            }
            i += 1;
        }
        false
    }

    /// Whether the car waits for the turn.
    pub fn is_waiting(&self, turn: TurnID, car: CarID) -> (queued: bool)
        ensures
            queued == (exists|k: int|
                0 <= k < self@.waiting.len() && (#[trigger] self@.waiting[k]).movement() == (Movement {
                    turn,
                    car,
                })),
    {
        let mut i: usize = 0;
        while i < self.waiting.len()
            invariant
                i <= self.waiting@.len(),
                forall|j: int|
                    0 <= j < i ==> (#[trigger] self.waiting@[j]).movement() != (Movement { turn, car }),
            decreases self.waiting@.len() - i,
        {
            if self.waiting[i].turn == turn && self.waiting[i].car == car {
                assert(self@.waiting[i as int].movement() == (Movement { turn, car }));
                return true;
            }
            i += 1;
        }
        false
    }

    /// How many movements are in progress.
    pub fn num_active(&self) -> (n: usize)
        ensures
            n == self@.active.len(),
    {
        self.active.len()
    }

    /// How many requests wait.
    pub fn num_waiting(&self) -> (n: usize)
        ensures
            n == self@.waiting.len(),
    {
        self.waiting.len()
    }

    /// A car at the end of a lane asks to cross by `turn`. The turn is
    /// granted at once if it conflicts with none in use; otherwise the
    /// request waits its turn.
    pub fn request(&mut self, turn: TurnID, car: CarID, now: Time) -> (granted: bool)
        requires
            old(self).wf(),
        ensures
            final(self).wf(),
            granted == compatible(old(self)@.conflicts, old(self)@.active, turn),
            final(self)@ == old(self)@.requested(turn, car, now),
            final(self)@.conflicts == old(self)@.conflicts,
    {
        proof {
            lemma_requested_keeps_sound(self@, turn, car, now);
        }
        if self.is_compatible(turn) {
            self.active.push(Movement { turn, car });
            true
        } else {
            enqueue(&mut self.waiting, Request { turn, car, time: now });
            false
        }
    }

    /// A car has left `turn` for the lane beyond it. The movement is over,
    /// and every waiting request that now conflicts with no turn in use is
    /// granted, in the order in which requests are served. Hands over the
    /// movements that began.
    pub fn release(&mut self, turn: TurnID, car: CarID) -> (begun: Vec<Movement>)
        requires
            old(self).wf(),
        ensures
            final(self).wf(),
            final(self)@ == old(self)@.released(turn, car),
            final(self)@.conflicts == old(self)@.conflicts,
            begun@.len() == final(self)@.active.len() - without_first(
                old(self)@.active,
                Movement { turn, car },
            ).len(),
            begun@ == final(self)@.active.subrange(
                final(self)@.active.len() - begun@.len(),
                final(self)@.active.len() as int,
            ),
    {
        proof {
            lemma_released_keeps_sound(self@, turn, car);
        }
        let m = Movement { turn, car };
        let mut at: usize = 0;
        let mut found = false;
        while at < self.active.len() && !found
            invariant
                at <= self.active@.len(),
                m == (Movement { turn, car }),
                first_place_of(self.active@, m, at as int) == first_place_of(self.active@, m, 0),
                found ==> at < self.active@.len() && self.active@[at as int] == m,
            decreases self.active@.len() - at + (if found { 0int } else { 1int }),
        {
            if self.active[at].turn == turn && self.active[at].car == car {
                found = true;
            } else {
                at += 1;
            }
        }
        if at < self.active.len() {
            self.active.remove(at);
        }
        assert(self.active@ == without_first(old(self).active@, m));
        let ghost start = self@;
        let base = self.active.len();
        let mut begun: Vec<Movement> = Vec::new();
        let mut k: usize = 0;
        while k < self.waiting.len()
            invariant
                k <= self.waiting@.len(),
                self@.regranted_from(k as int) == start.regranted_from(0),
                base + begun@.len() == self.active@.len(),
                begun@ == self.active@.subrange(base as int, self.active@.len() as int),
            decreases self.waiting@.len() - k,
        {
            let r = self.waiting[k];
            if self.is_compatible(r.turn) {
                self.waiting.remove(k);
                self.active.push(Movement { turn: r.turn, car: r.car });
                begun.push(Movement { turn: r.turn, car: r.car });
                assert(begun@ =~= self.active@.subrange(base as int, self.active@.len() as int));
            } else {
                k += 1;
            }
        }
        begun
    }
}

/// Where the first movement equal to `m` is found, there it is, and not
/// before.
proof fn lemma_first_place_of(active: Seq<Movement>, m: Movement, from: int)
    requires
        0 <= from <= active.len(),
    ensures
        from <= first_place_of(active, m, from) <= active.len(),
        first_place_of(active, m, from) < active.len() ==> active[first_place_of(active, m, from)] == m,
    decreases active.len() - from,
{
    if from < active.len() && active[from] != m {
        lemma_first_place_of(active, m, from + 1);
    }
}

/// A request leaves every movement in progress as it is.
pub proof fn lemma_requested_keeps(view: IntersectionView, turn: TurnID, car: CarID, now: Time, x: Movement)
    requires
        view.active.contains(x),
    ensures
        view.requested(turn, car, now).active.contains(x),
{
    let k = choose|k: int| 0 <= k < view.active.len() && view.active[k] == x;
    if compatible(view.conflicts, view.active, turn) {
        assert(view.active.push(Movement { turn, car })[k] == x);
    }
}

/// Granting waiting requests leaves every movement in progress as it is.
pub proof fn lemma_regranted_keeps(view: IntersectionView, k: int, x: Movement)
    requires
        view.active.contains(x),
    ensures
        view.regranted_from(k).active.contains(x),
    decreases view.waiting.len() - k,
{
    if 0 <= k < view.waiting.len() {
        if compatible(view.conflicts, view.active, view.waiting[k].turn) {
            let next = IntersectionView {
                active: view.active.push(view.waiting[k].movement()),
                waiting: view.waiting.remove(k),
                ..view
            };
            let j = choose|j: int| 0 <= j < view.active.len() && view.active[j] == x;
            assert(next.active[j] == x);
            lemma_regranted_keeps(next, k, x);
        } else {
            lemma_regranted_keeps(view, k + 1, x);
        }
    }
}

/// The end of one movement leaves every other movement in progress as it
/// is.
pub proof fn lemma_released_keeps(view: IntersectionView, turn: TurnID, car: CarID, x: Movement)
    requires
        view.active.contains(x),
        x != (Movement { turn, car }),
    ensures
        view.released(turn, car).active.contains(x),
{
    let m = Movement { turn, car };
    lemma_first_place_of(view.active, m, 0);
    let at = first_place_of(view.active, m, 0);
    let left = without_first(view.active, m);
    let j = choose|j: int| 0 <= j < view.active.len() && view.active[j] == x;
    if at < view.active.len() {
        if j < at {
            assert(left[j] == x);
        } else {
            assert(left[j - 1] == x);
        }
    } else {
        assert(left[j] == x);
    }
    lemma_regranted_keeps(IntersectionView { active: left, ..view }, 0, x);
}

/// One more movement, compatible with those in progress, leaves them free
/// of conflict.
proof fn lemma_granting_keeps_conflict_free(table: Seq<(TurnID, TurnID)>, active: Seq<Movement>, m: Movement)
    requires
        conflict_free(table, active),
        compatible(table, active, m.turn),
    ensures
        conflict_free(table, active.push(m)),
{
    let more = active.push(m);
    assert forall|i: int, j: int| 0 <= i < more.len() && 0 <= j < more.len() implies !conflict_in(
        table,
        (#[trigger] more[i]).turn,
        (#[trigger] more[j]).turn,
    ) by {
        let last = active.len() as int;
        if i < last && j < last {
            assert(!conflict_in(table, active[i].turn, active[j].turn));
        } else if i < last {
            assert(!conflict_in(table, active[i].turn, m.turn));
        } else if j < last {
            assert(!conflict_in(table, active[j].turn, m.turn));
            lemma_conflict_symmetric(table, m.turn, active[j].turn);
        }
    }
}

/// A request leaves the arbiter sound.
pub proof fn lemma_requested_keeps_sound(view: IntersectionView, turn: TurnID, car: CarID, now: Time)
    requires
        view.wf(),
    ensures
        view.requested(turn, car, now).wf(),
        view.requested(turn, car, now).conflicts == view.conflicts,
{
    let after = view.requested(turn, car, now);
    if compatible(view.conflicts, view.active, turn) {
        lemma_granting_keeps_conflict_free(view.conflicts, view.active, Movement { turn, car });
        assert forall|k: int| 0 <= k < after.waiting.len() implies !compatible(
            after.conflicts,
            after.active,
            (#[trigger] after.waiting[k]).turn,
        ) by {
            lemma_still_blocked(view.conflicts, view.active, after.active, view.waiting[k].turn);
        }
    } else {
        let r = Request { turn, car, time: now };
        lemma_enqueued_in_order(view.waiting, r);
        lemma_place_for(view.waiting, r, 0);
        let p = place_for(view.waiting, r, 0);
        assert forall|k: int| 0 <= k < after.waiting.len() implies !compatible(
            after.conflicts,
            after.active,
            (#[trigger] after.waiting[k]).turn,
        ) by {
            if k < p {
                assert(after.waiting[k] == view.waiting[k]);
            } else if k > p {
                assert(after.waiting[k] == view.waiting[k - 1]);
            }
        }
    }
}

/// Granting what has become compatible leaves the arbiter sound, if the
/// requests before place `k` are blocked.
proof fn lemma_regranted_is_sound(view: IntersectionView, k: int)
    requires
        conflict_free(view.conflicts, view.active),
        in_order(view.waiting),
        0 <= k <= view.waiting.len(),
        forall|j: int| 0 <= j < k ==> !compatible(view.conflicts, view.active, (#[trigger] view.waiting[j]).turn),
    ensures
        view.regranted_from(k).wf(),
        view.regranted_from(k).conflicts == view.conflicts,
    decreases view.waiting.len() - k,
{
    if k < view.waiting.len() {
        let r = view.waiting[k];
        if compatible(view.conflicts, view.active, r.turn) {
            let next = IntersectionView {
                active: view.active.push(r.movement()),
                waiting: view.waiting.remove(k),
                ..view
            };
            lemma_granting_keeps_conflict_free(view.conflicts, view.active, r.movement());
            assert forall|i: int, j: int| 0 <= i < j < next.waiting.len() implies !(
            #[trigger] next.waiting[j]).before_spec(#[trigger] next.waiting[i]) by {
                let i0 = if i >= k { i + 1 } else { i };
                let j0 = if j >= k { j + 1 } else { j };
                assert(!view.waiting[j0].before_spec(view.waiting[i0]));
            }
            assert forall|j: int| 0 <= j < k implies !compatible(
                next.conflicts,
                next.active,
                (#[trigger] next.waiting[j]).turn,
            ) by {
                assert(next.waiting[j] == view.waiting[j]);
                lemma_still_blocked(view.conflicts, view.active, next.active, view.waiting[j].turn);
            }
            lemma_regranted_is_sound(next, k);
        } else {
            lemma_regranted_is_sound(view, k + 1);
        }
    }
}

/// The end of a movement leaves the arbiter sound.
pub proof fn lemma_released_keeps_sound(view: IntersectionView, turn: TurnID, car: CarID)
    requires
        view.wf(),
    ensures
        view.released(turn, car).wf(),
        view.released(turn, car).conflicts == view.conflicts,
{
    let m = Movement { turn, car };
    lemma_first_place_of(view.active, m, 0);
    let at = first_place_of(view.active, m, 0);
    let left = without_first(view.active, m);
    assert forall|i: int, j: int| 0 <= i < left.len() && 0 <= j < left.len() implies !conflict_in(
        view.conflicts,
        (#[trigger] left[i]).turn,
        (#[trigger] left[j]).turn,
    ) by {
        let i0 = if at < view.active.len() && i >= at { i + 1 } else { i };
        let j0 = if at < view.active.len() && j >= at { j + 1 } else { j };
        assert(!conflict_in(view.conflicts, view.active[i0].turn, view.active[j0].turn));
    }
    lemma_regranted_is_sound(IntersectionView { active: left, ..view }, 0);
}

/// At no time do two movements in progress at an intersection conflict.
pub proof fn lemma_active_turns_never_conflict(view: IntersectionView, i: int, j: int)
    requires
        view.wf(),
        0 <= i < view.active.len(),
        0 <= j < view.active.len(),
    ensures
        !conflict_in(view.conflicts, view.active[i].turn, view.active[j].turn),
{
}

/// A request waits only while its turn conflicts with one in use: a car
/// that waits holds up no turn but those.
pub proof fn lemma_waiting_is_blocked(view: IntersectionView, k: int)
    requires
        view.wf(),
        0 <= k < view.waiting.len(),
    ensures
        exists|i: int|
            0 <= i < view.active.len() && conflict_in(
                view.conflicts,
                (#[trigger] view.active[i]).turn,
                view.waiting[k].turn,
            ),
{
    let turn = view.waiting[k].turn;
    assert(!compatible(view.conflicts, view.active, turn));
    let i = choose|i: int|
        0 <= i < view.active.len() && conflict_in(view.conflicts, (#[trigger] view.active[i]).turn, turn);
    assert(conflict_in(view.conflicts, view.active[i].turn, view.waiting[k].turn));
}

/// The waiting requests stand in the order in which they are served: the
/// earlier request first, and of two made at the same instant the one of
/// the car with the lower identity.
pub proof fn lemma_waiting_in_order_of_service(view: IntersectionView, i: int, j: int)
    requires
        view.wf(),
        0 <= i < j < view.waiting.len(),
    ensures
        view.waiting[i].time <= view.waiting[j].time,
        view.waiting[i].time == view.waiting[j].time ==> view.waiting[i].car.0 <= view.waiting[j].car.0,
{
    assert(!view.waiting[j].before_spec(view.waiting[i]));
}

} // verus!
