//! Climb and descent along a route.
//!
//! Elevations are noisy, so a change of direction counts only once it reaches
//! the deadband. The arithmetic is the caller's: `reaches(a, b, d)` tells whether
//! `a - b >= d`, and `accumulate(sum, a, b)` gives `sum + (a - b)`.

use vstd::prelude::*;

use crate::binary64::Binary64;
use crate::types::RoutePoint;

verus! {

/// The bit pattern of the deadband, ten metres.
pub const ELEVATION_DEADBAND_BITS: u64 = 0x4024_0000_0000_0000;

/// The deadband: smaller swings are noise.
pub open spec fn deadband() -> Binary64 {
    Binary64 { bits: ELEVATION_DEADBAND_BITS }
}

/// The way the route goes on.
#[derive(Clone, Copy, Debug, PartialEq, Eq, Structural)]
pub enum Direction {
    /// No swing has reached the deadband yet.
    Unknown,
    Up,
    Down,
}

/// The running totals and extremes.
#[derive(Clone, Copy, Debug, PartialEq, Eq, Structural)]
pub struct Climb {
    pub gain: Binary64,
    pub loss: Binary64,
    /// The elevation from which the current swing is measured.
    pub anchor: Binary64,
    pub high: Binary64,
    pub low: Binary64,
    pub direction: Direction,
}

impl Climb {
    /// The state at the first elevation.
    pub open spec fn starting(first: Binary64) -> Climb {
        Climb {
            gain: Binary64::spec_zero(),
            loss: Binary64::spec_zero(),
            anchor: first,
            high: first,
            low: first,
            direction: Direction::Unknown,
        }
    }

    /// A climb reaches from the anchor up to `high`, a descent from the anchor
    /// down to `low`.
    pub open spec fn ordered(self) -> bool {
        &&& !self.anchor.nan() && !self.high.nan() && !self.low.nan()
        &&& self.direction != Direction::Down ==> self.anchor.le(self.high)
        &&& self.direction != Direction::Up ==> self.low.le(self.anchor)
    }
}

/// How an elevation may end a climb: `next` follows from `s`.
pub open spec fn climb_ends<R, A>(reaches: R, accumulate: A, s: Climb, ele: Binary64, next: Climb) -> bool where
    R: Fn(Binary64, Binary64, Binary64) -> bool,
    A: Fn(Binary64, Binary64, Binary64) -> Binary64,
 {
    if s.direction == Direction::Down {
        next == s
    } else {
        let high = s.high.spec_max(ele);
        ||| {
            &&& call_ensures(reaches, (high, ele, deadband()), true)
            &&& call_ensures(accumulate, (s.gain, high, s.anchor), next.gain)
            &&& next == (Climb {
                gain: next.gain,
                loss: s.loss,
                anchor: high,
                high,
                low: ele,
                direction: Direction::Down,
            })
        }
        ||| {
            &&& call_ensures(reaches, (high, ele, deadband()), false)
            &&& next == (Climb { high, ..s })
        }
    }
}

/// How an elevation may end a descent: `next` follows from `s`.
pub open spec fn descent_ends<R, A>(
    reaches: R,
    accumulate: A,
    s: Climb,
    ele: Binary64,
    next: Climb,
) -> bool where
    R: Fn(Binary64, Binary64, Binary64) -> bool,
    A: Fn(Binary64, Binary64, Binary64) -> Binary64,
 {
    if s.direction == Direction::Up {
        next == s
    } else {
        let low = s.low.spec_min(ele);
        ||| {
            &&& call_ensures(reaches, (ele, low, deadband()), true)
            &&& call_ensures(accumulate, (s.loss, s.anchor, low), next.loss)
            &&& next == (Climb {
                gain: s.gain,
                loss: next.loss,
                anchor: low,
                high: ele,
                low,
                direction: Direction::Up,
            })
        }
        ||| {
            &&& call_ensures(reaches, (ele, low, deadband()), false)
            &&& next == (Climb { low, ..s })
        }
    }
}

/// Whether `states` leads through the elevations, with `between[i]` the state
/// between the two halves of step `i`.
pub open spec fn climb_trace<R, A>(
    reaches: R,
    accumulate: A,
    elevations: Seq<Binary64>,
    states: Seq<Climb>,
    between: Seq<Climb>,
) -> bool where
    R: Fn(Binary64, Binary64, Binary64) -> bool,
    A: Fn(Binary64, Binary64, Binary64) -> Binary64,
 {
    &&& states.len() == elevations.len()
    &&& between.len() + 1 == elevations.len()
    &&& states[0] == Climb::starting(elevations[0])
    &&& forall|i: int|
        0 <= i < between.len() ==> {
            &&& climb_ends(reaches, accumulate, states[i], elevations[i + 1], #[trigger] between[i])
            &&& descent_ends(
                reaches,
                accumulate,
                between[i],
                elevations[i + 1],
                states[i + 1],
            )
        }
}

/// How the last swing is counted.
pub open spec fn totals<A>(accumulate: A, s: Climb, gain: Binary64, loss: Binary64) -> bool where
    A: Fn(Binary64, Binary64, Binary64) -> Binary64,
 {
    &&& if s.direction == Direction::Down {
        gain == s.gain
    } else {
        call_ensures(accumulate, (s.gain, s.high, s.anchor), gain)
    }
    &&& if s.direction == Direction::Up {
        loss == s.loss
    } else {
        call_ensures(accumulate, (s.loss, s.anchor, s.low), loss)
    }
}

/// Whether `gain` and `loss` are the climb and descent over the elevations.
pub open spec fn gain_and_loss<R, A>(
    reaches: R,
    accumulate: A,
    elevations: Seq<Binary64>,
    gain: Binary64,
    loss: Binary64,
) -> bool where
    R: Fn(Binary64, Binary64, Binary64) -> bool,
    A: Fn(Binary64, Binary64, Binary64) -> Binary64,
 {
    if elevations.len() == 0 {
        gain == Binary64::spec_zero() && loss == Binary64::spec_zero()
    } else {
        exists|states: Seq<Climb>, between: Seq<Climb>|
            #[trigger] climb_trace(reaches, accumulate, elevations, states, between) && totals(
                accumulate,
                states.last(),
                gain,
                loss,
            )
    }
}

/// The elevations of those points that have one, in order.
pub open spec fn elevations(points: Seq<RoutePoint>) -> Seq<Binary64>
    decreases points.len(),
{
    if points.len() == 0 {
        Seq::empty()
    } else {
        match points.last().ele {
            Some(ele) => elevations(points.drop_last()).push(ele),
            None => elevations(points.drop_last()),
        }
    }
}

impl Climb {
    /// One step of the walk.
    fn step<R, A>(self, ele: Binary64, reaches: &R, accumulate: &A) -> (r: (Climb, Climb)) where
        R: Fn(Binary64, Binary64, Binary64) -> bool,
        A: Fn(Binary64, Binary64, Binary64) -> Binary64,

        requires
            forall|a: Binary64, b: Binary64, c: Binary64| call_requires(*reaches, (a, b, c)),
            forall|a: Binary64, b: Binary64, c: Binary64| call_requires(*accumulate, (a, b, c)),
        ensures
            climb_ends(*reaches, *accumulate, self, ele, r.0),
            descent_ends(*reaches, *accumulate, r.0, ele, r.1),
    {
        let limit = Binary64::from_bits(ELEVATION_DEADBAND_BITS);
        let mut s = self;
        if s.direction != Direction::Down {
            s.high = s.high.max(ele);
            if reaches(s.high, ele, limit) {
                s.gain = accumulate(s.gain, s.high, s.anchor);
                s.anchor = s.high;
                s.low = ele;
                s.direction = Direction::Down;
            }
        }
        let mid = s;
        if s.direction != Direction::Up {
            s.low = s.low.min(ele);
            if reaches(ele, s.low, limit) {
                s.loss = accumulate(s.loss, s.anchor, s.low);
                s.anchor = s.low;
                s.high = ele;
                s.direction = Direction::Up;
            }
        }
        (mid, s)
    }
}

/// A trace grows by one step.
proof fn lemma_trace_grows<R, A>(
    reaches: R,
    accumulate: A,
    seen: Seq<Binary64>,
    states: Seq<Climb>,
    between: Seq<Climb>,
    ele: Binary64,
    mid: Climb,
    next: Climb,
) where
    R: Fn(Binary64, Binary64, Binary64) -> bool,
    A: Fn(Binary64, Binary64, Binary64) -> Binary64,

    requires
        seen.len() > 0,
        climb_trace(reaches, accumulate, seen, states, between),
        climb_ends(reaches, accumulate, states.last(), ele, mid),
        descent_ends(reaches, accumulate, mid, ele, next),
    ensures
        climb_trace(reaches, accumulate, seen.push(ele), states.push(next), between.push(mid)),
{
    let seen2 = seen.push(ele);
    let states2 = states.push(next);
    let between2 = between.push(mid);
    assert forall|i: int| 0 <= i < between2.len() implies {
        &&& climb_ends(reaches, accumulate, states2[i], seen2[i + 1], #[trigger] between2[i])
        &&& descent_ends(reaches, accumulate, between2[i], seen2[i + 1], states2[i + 1])
    } by {
        if i < between.len() {
            assert(between2[i] == between[i]);
        }
    }
}

/// The climb and descent over the points that have an elevation.
pub fn elevation_gain_loss<R, A>(
    points: &Vec<RoutePoint>,
    reaches: &R,
    accumulate: &A,
) -> (r: (Binary64, Binary64)) where
    R: Fn(Binary64, Binary64, Binary64) -> bool,
    A: Fn(Binary64, Binary64, Binary64) -> Binary64,

    requires
        forall|a: Binary64, b: Binary64, c: Binary64| call_requires(*reaches, (a, b, c)),
        forall|a: Binary64, b: Binary64, c: Binary64| call_requires(*accumulate, (a, b, c)),
    ensures
        gain_and_loss(*reaches, *accumulate, elevations(points@), r.0, r.1),
{
    let mut climb: Option<Climb> = None;
    let ghost mut states: Seq<Climb> = Seq::empty();
    let ghost mut between: Seq<Climb> = Seq::empty();
    let mut i: usize = 0;
    while i < points.len()
        invariant
            i <= points@.len(),
            forall|a: Binary64, b: Binary64, c: Binary64| call_requires(*reaches, (a, b, c)),
            forall|a: Binary64, b: Binary64, c: Binary64| call_requires(*accumulate, (a, b, c)),
            match climb {
                None => elevations(points@.take(i as int)).len() == 0,
                Some(c) => {
                    &&& elevations(points@.take(i as int)).len() > 0
                    &&& climb_trace(
                        *reaches,
                        *accumulate,
                        elevations(points@.take(i as int)),
                        states,
                        between,
                    )
                    &&& states.last() == c
                },
            },
        decreases points@.len() - i,
    {
        let ghost seen = elevations(points@.take(i as int));
        assert(points@.take(i + 1).drop_last() =~= points@.take(i as int));
        assert(points@.take(i + 1).last() == points@[i as int]);
        match points[i].ele {
            None => {},
            Some(ele) => {
                match climb {
                    None => {
                        climb =
                        Some(
                            Climb {
                                gain: Binary64::zero(),
                                loss: Binary64::zero(),
                                anchor: ele,
                                high: ele,
                                low: ele,
                                direction: Direction::Unknown,
                            },
                        );
                        proof {
                            states = seq![Climb::starting(ele)];
                            between = Seq::empty();
                        }
                    },
                    Some(c) => {
                        let (mid, next) = c.step(ele, reaches, accumulate);
                        climb = Some(next);
                        proof {
                            lemma_trace_grows(
                                *reaches,
                                *accumulate,
                                seen,
                                states,
                                between,
                                ele,
                                mid,
                                next,
                            );
                            states = states.push(next);
                            between = between.push(mid);
                        }
                    },
                }
            },
        }
        i = i + 1;
    }
    assert(points@.take(points@.len() as int) =~= points@);
    match climb {
        None => (Binary64::zero(), Binary64::zero()),
        Some(s) => {
            let gain = if s.direction != Direction::Down {
                accumulate(s.gain, s.high, s.anchor)
            } else {
                s.gain
            };
            let loss = if s.direction != Direction::Up {
                accumulate(s.loss, s.anchor, s.low)
            } else {
                s.loss
            };
            (gain, loss)
        },
    }
}

/// Whether all elevations are numbers.
pub open spec fn all_numbers(elevations: Seq<Binary64>) -> bool {
    forall|i: int| 0 <= i < elevations.len() ==> !(#[trigger] elevations[i]).nan()
}

/// Whatever the caller's arithmetic answers, only ordered differences are added:
/// a climb adds `high - anchor` with `anchor <= high`, a descent adds
/// `anchor - low` with `low <= anchor`, in every state and between the two
/// halves of a step.
pub proof fn swings_are_ordered<R, A>(
    reaches: R,
    accumulate: A,
    elevations: Seq<Binary64>,
    states: Seq<Climb>,
    between: Seq<Climb>,
    i: int,
) where
    R: Fn(Binary64, Binary64, Binary64) -> bool,
    A: Fn(Binary64, Binary64, Binary64) -> Binary64,

    requires
        elevations.len() > 0,
        all_numbers(elevations),
        climb_trace(reaches, accumulate, elevations, states, between),
        0 <= i < states.len(),
    ensures
        states[i].ordered(),
        i < between.len() ==> between[i].ordered(),
    decreases i,
{
    assert(!elevations[0].nan());
    if i > 0 {
        swings_are_ordered(reaches, accumulate, elevations, states, between, i - 1);
        let k = i - 1;
        assert(descent_ends(reaches, accumulate, between[k], elevations[k + 1], states[k + 1]));
        assert(!elevations[k + 1].nan());
    }
    if i < between.len() {
        assert(climb_ends(reaches, accumulate, states[i], elevations[i + 1], between[i]));
        assert(!elevations[i + 1].nan());
    }
}

/// Whether all elevations are numbers other than infinities.
pub open spec fn all_finite(elevations: Seq<Binary64>) -> bool {
    forall|i: int| 0 <= i < elevations.len() ==> (#[trigger] elevations[i]).finite()
}

/// The profile turned upside down.
pub open spec fn upside_down(elevations: Seq<Binary64>) -> Seq<Binary64> {
    elevations.map_values(|e: Binary64| e.negated())
}

/// Whether `reaches` answers as `exceeds` does for the deadband, and `accumulate`
/// as `sum`.
pub open spec fn computes<R, A>(
    reaches: R,
    accumulate: A,
    exceeds: spec_fn(Binary64, Binary64) -> bool,
    sum: spec_fn(Binary64, Binary64, Binary64) -> Binary64,
) -> bool where
    R: Fn(Binary64, Binary64, Binary64) -> bool,
    A: Fn(Binary64, Binary64, Binary64) -> Binary64,
 {
    &&& forall|a: Binary64, b: Binary64, answer: bool| #[trigger]
        call_ensures(reaches, (a, b, deadband()), answer) ==> answer == exceeds(a, b)
    &&& forall|total: Binary64, a: Binary64, b: Binary64, answer: Binary64| #[trigger]
        call_ensures(accumulate, (total, a, b), answer) ==> answer == sum(total, a, b)
}

/// Whether a difference stays the same when both elevations change their signs and
/// places, exceeds the deadband only where it is positive, and goes on to exceed it
/// where it grows at the upper end.
pub open spec fn symmetric_under_negation(
    exceeds: spec_fn(Binary64, Binary64) -> bool,
    sum: spec_fn(Binary64, Binary64, Binary64) -> Binary64,
) -> bool {
    &&& forall|a: Binary64, b: Binary64|
        a.finite() && b.finite() ==> #[trigger] exceeds(a, b) == exceeds(b.negated(), a.negated())
    &&& forall|total: Binary64, a: Binary64, b: Binary64|
        a.finite() && b.finite() ==> #[trigger] sum(total, a, b) == sum(
            total,
            b.negated(),
            a.negated(),
        )
    &&& forall|a: Binary64, b: Binary64|
        a.finite() && b.finite() && #[trigger] exceeds(a, b) ==> b.rank() < a.rank()
    &&& forall|a: Binary64, b: Binary64, c: Binary64|
        a.finite() && b.finite() && c.finite() && a.le(c) && #[trigger] exceeds(a, b)
            ==> #[trigger] exceeds(c, b)
}

impl Climb {
    /// The state of the profile turned upside down.
    spec fn mirrored(self) -> Climb {
        Climb {
            gain: self.loss,
            loss: self.gain,
            anchor: self.anchor.negated(),
            high: self.low.negated(),
            low: self.high.negated(),
            direction: match self.direction {
                Direction::Unknown => Direction::Unknown,
                Direction::Up => Direction::Down,
                Direction::Down => Direction::Up,
            },
        }
    }

    /// What holds of every state: before the first swing, no two elevations lay the
    /// deadband apart.
    spec fn settled(self, exceeds: spec_fn(Binary64, Binary64) -> bool) -> bool {
        &&& self.anchor.finite() && self.high.finite() && self.low.finite()
        &&& self.direction == Direction::Unknown ==> !exceeds(self.high, self.low)
    }
}

/// Mirrored steps lead from mirrored states to mirrored states.
proof fn lemma_mirrored_step<R, A>(
    reaches: R,
    accumulate: A,
    exceeds: spec_fn(Binary64, Binary64) -> bool,
    sum: spec_fn(Binary64, Binary64, Binary64) -> Binary64,
    s: Climb,
    ele: Binary64,
    mid: Climb,
    next: Climb,
    other_mid: Climb,
    other_next: Climb,
) where
    R: Fn(Binary64, Binary64, Binary64) -> bool,
    A: Fn(Binary64, Binary64, Binary64) -> Binary64,

    requires
        computes(reaches, accumulate, exceeds, sum),
        symmetric_under_negation(exceeds, sum),
        s.settled(exceeds),
        ele.finite(),
        climb_ends(reaches, accumulate, s, ele, mid),
        descent_ends(reaches, accumulate, mid, ele, next),
        climb_ends(reaches, accumulate, s.mirrored(), ele.negated(), other_mid),
        descent_ends(reaches, accumulate, other_mid, ele.negated(), other_next),
    ensures
        other_next == next.mirrored(),
        next.settled(exceeds),
{
    let high = s.high.spec_max(ele);
    let low = s.low.spec_min(ele);
    assert(high.negated() == s.high.negated().spec_min(ele.negated()));
    assert(low.negated() == s.low.negated().spec_max(ele.negated()));
    assert(exceeds(high, ele) == exceeds(ele.negated(), high.negated()));
    assert(exceeds(ele, low) == exceeds(low.negated(), ele.negated()));
    assert(!exceeds(ele, ele));
    assert(!exceeds(ele.negated(), ele.negated()));
    assert(ele.spec_min(ele) == ele && ele.spec_max(ele) == ele);
    assert(sum(s.gain, high, s.anchor) == sum(s.gain, s.anchor.negated(), high.negated()));
    assert(sum(s.loss, s.anchor, low) == sum(s.loss, low.negated(), s.anchor.negated()));
    if s.direction == Direction::Unknown {
        if exceeds(high, ele) && exceeds(ele, low) {
            assert(high == s.high && low == s.low);
            assert(exceeds(s.high, low));
        }
    }
}

/// A profile turned upside down swaps climb and descent.
pub proof fn upside_down_swaps_gain_and_loss<R, A>(
    reaches: R,
    accumulate: A,
    exceeds: spec_fn(Binary64, Binary64) -> bool,
    sum: spec_fn(Binary64, Binary64, Binary64) -> Binary64,
    elevations: Seq<Binary64>,
    gain: Binary64,
    loss: Binary64,
    other_gain: Binary64,
    other_loss: Binary64,
) where
    R: Fn(Binary64, Binary64, Binary64) -> bool,
    A: Fn(Binary64, Binary64, Binary64) -> Binary64,

    requires
        computes(reaches, accumulate, exceeds, sum),
        symmetric_under_negation(exceeds, sum),
        all_finite(elevations),
        gain_and_loss(reaches, accumulate, elevations, gain, loss),
        gain_and_loss(reaches, accumulate, upside_down(elevations), other_gain, other_loss),
    ensures
        other_gain == loss,
        other_loss == gain,
{
    if elevations.len() > 0 {
        let other = upside_down(elevations);
        let (states, between) = choose|states: Seq<Climb>, between: Seq<Climb>| #[trigger]
            climb_trace(reaches, accumulate, elevations, states, between) && totals(
                accumulate,
                states.last(),
                gain,
                loss,
            );
        let (other_states, other_between) = choose|states: Seq<Climb>, between: Seq<Climb>|
            #[trigger] climb_trace(reaches, accumulate, other, states, between) && totals(
                accumulate,
                states.last(),
                other_gain,
                other_loss,
            );
        lemma_mirrored_trace(
            reaches,
            accumulate,
            exceeds,
            sum,
            elevations,
            states,
            between,
            other_states,
            other_between,
            elevations.len() - 1,
        );
        let s = states.last();
        assert(sum(s.gain, s.high, s.anchor) == sum(
            s.gain,
            s.anchor.negated(),
            s.high.negated(),
        ));
        assert(sum(s.loss, s.anchor, s.low) == sum(s.loss, s.low.negated(), s.anchor.negated()));
    }
}

proof fn lemma_mirrored_trace<R, A>(
    reaches: R,
    accumulate: A,
    exceeds: spec_fn(Binary64, Binary64) -> bool,
    sum: spec_fn(Binary64, Binary64, Binary64) -> Binary64,
    elevations: Seq<Binary64>,
    states: Seq<Climb>,
    between: Seq<Climb>,
    other_states: Seq<Climb>,
    other_between: Seq<Climb>,
    i: int,
) where
    R: Fn(Binary64, Binary64, Binary64) -> bool,
    A: Fn(Binary64, Binary64, Binary64) -> Binary64,

    requires
        computes(reaches, accumulate, exceeds, sum),
        symmetric_under_negation(exceeds, sum),
        elevations.len() > 0,
        all_finite(elevations),
        climb_trace(reaches, accumulate, elevations, states, between),
        climb_trace(
            reaches,
            accumulate,
            upside_down(elevations),
            other_states,
            other_between,
        ),
        0 <= i < elevations.len(),
    ensures
        other_states[i] == states[i].mirrored(),
        states[i].settled(exceeds),
    decreases i,
{
    let other = upside_down(elevations);
    assert(elevations[i].finite());
    assert(other[i] == elevations[i].negated());
    if i == 0 {
        assert(exceeds(elevations[0], elevations[0]) ==> false);
    } else {
        lemma_mirrored_trace(
            reaches,
            accumulate,
            exceeds,
            sum,
            elevations,
            states,
            between,
            other_states,
            other_between,
            i - 1,
        );
        let k = i - 1;
        assert(climb_ends(reaches, accumulate, states[k], elevations[k + 1], between[k]));
        assert(climb_ends(reaches, accumulate, other_states[k], other[k + 1], other_between[k]));
        lemma_mirrored_step(
            reaches,
            accumulate,
            exceeds,
            sum,
            states[k],
            elevations[i],
            between[k],
            states[i],
            other_between[k],
            other_states[i],
        );
    }
}

/// The smallest elevation.
pub open spec fn lowest(points: Seq<RoutePoint>) -> Option<Binary64>
    decreases points.len(),
{
    if points.len() == 0 {
        None
    } else {
        match (lowest(points.drop_last()), points.last().ele) {
            (Some(low), Some(ele)) => Some(low.spec_min(ele)),
            (None, Some(ele)) => Some(ele),
            (low, None) => low,
        }
    }
}

/// The largest elevation.
pub open spec fn highest(points: Seq<RoutePoint>) -> Option<Binary64>
    decreases points.len(),
{
    if points.len() == 0 {
        None
    } else {
        match (highest(points.drop_last()), points.last().ele) {
            (Some(high), Some(ele)) => Some(high.spec_max(ele)),
            (None, Some(ele)) => Some(ele),
            (high, None) => high,
        }
    }
}

/// The smallest and the largest elevation of the points that have one.
pub fn elevation_range(points: &Vec<RoutePoint>) -> (r: (Option<Binary64>, Option<Binary64>))
    ensures
        r.0 == lowest(points@),
        r.1 == highest(points@),
{
    let mut low: Option<Binary64> = None;
    let mut high: Option<Binary64> = None;
    let mut i: usize = 0;
    while i < points.len()
        invariant
            i <= points@.len(),
            low == lowest(points@.take(i as int)),
            high == highest(points@.take(i as int)),
        decreases points@.len() - i,
    {
        assert(points@.take(i + 1).drop_last() =~= points@.take(i as int));
        assert(points@.take(i + 1).last() == points@[i as int]);
        if let Some(ele) = points[i].ele {
            low =
            match low {
                Some(current) => Some(current.min(ele)),
                None => Some(ele),
            };
            high =
            match high {
                Some(current) => Some(current.max(ele)),
                None => Some(ele),
            };
        }
        i = i + 1;
    }
    assert(points@.take(points@.len() as int) =~= points@);
    (low, high)
}

/// Every elevation that is a number lies between the lowest and the highest.
pub proof fn range_bounds_every_elevation(points: Seq<RoutePoint>, i: int)
    requires
        0 <= i < points.len(),
        points[i].ele is Some,
        !points[i].ele->0.nan(),
    ensures
        lowest(points) is Some && lowest(points)->0.le(points[i].ele->0),
        highest(points) is Some && points[i].ele->0.le(highest(points)->0),
    decreases points.len(),
{
    if i < points.len() - 1 {
        assert(points.drop_last()[i] == points[i]);
        range_bounds_every_elevation(points.drop_last(), i);
    }
}

/// The lowest and the highest elevation are elevations of points, and they are missing
/// only where all elevations are.
pub proof fn range_is_attained(points: Seq<RoutePoint>)
    ensures
        (lowest(points) is None) == forall|i: int|
            0 <= i < points.len() ==> (#[trigger] points[i]).ele is None,
        (highest(points) is None) == (lowest(points) is None),
        lowest(points) is Some ==> exists|i: int|
            0 <= i < points.len() && (#[trigger] points[i]).ele == lowest(points),
        highest(points) is Some ==> exists|i: int|
            0 <= i < points.len() && (#[trigger] points[i]).ele == highest(points),
    decreases points.len(),
{
    if points.len() > 0 {
        let fewer = points.drop_last();
        let n = points.len() - 1;
        range_is_attained(fewer);
        assert(points[n] == points.last());
        assert forall|i: int| 0 <= i < fewer.len() implies #[trigger] fewer[i] == points[i] by {}
        if lowest(fewer) is None {
            assert forall|i: int| 0 <= i < n implies (#[trigger] points[i]).ele is None by {
                assert(fewer[i].ele is None);
            }
        } else {
            let i = choose|i: int|
                0 <= i < fewer.len() && (#[trigger] fewer[i]).ele == lowest(fewer);
            assert(points[i].ele == lowest(fewer));
            let j = choose|j: int|
                0 <= j < fewer.len() && (#[trigger] fewer[j]).ele == highest(fewer);
            assert(points[j].ele == highest(fewer));
        }
    }
}

/// The elevations of a route are those of its points that have one, in their order.
pub proof fn elevations_are_those_of_the_points(points: Seq<RoutePoint>)
    ensures
        exists|at: Seq<int>|
            {
                &&& #[trigger] at.len() == elevations(points).len()
                &&& forall|k: int|
                    0 <= k < at.len() ==> 0 <= #[trigger] at[k] < points.len() && points[at[k]].ele
                        == Some(elevations(points)[k])
                &&& forall|j: int, k: int| 0 <= j < k < at.len() ==> at[j] < at[k]
                &&& forall|i: int|
                    0 <= i < points.len() && (#[trigger] points[i]).ele is Some ==> at.contains(i)
            },
    decreases points.len(),
{
    if points.len() == 0 {
        let at = Seq::<int>::empty();
        assert(at.len() == elevations(points).len());
    } else {
        let fewer = points.drop_last();
        let n = points.len() - 1;
        elevations_are_those_of_the_points(fewer);
        let before = choose|at: Seq<int>|
            {
                &&& #[trigger] at.len() == elevations(fewer).len()
                &&& forall|k: int|
                    0 <= k < at.len() ==> 0 <= #[trigger] at[k] < fewer.len() && fewer[at[k]].ele
                        == Some(elevations(fewer)[k])
                &&& forall|j: int, k: int| 0 <= j < k < at.len() ==> at[j] < at[k]
                &&& forall|i: int|
                    0 <= i < fewer.len() && (#[trigger] fewer[i]).ele is Some ==> at.contains(i)
            };
        let at = match points.last().ele {
            Some(ele) => before.push(n),
            None => before,
        };
        assert forall|i: int|
            0 <= i < points.len() && (#[trigger] points[i]).ele is Some implies at.contains(i) by {
            if i < n {
                assert(fewer[i] == points[i]);
                assert(before.contains(i));
                let k = choose|k: int| 0 <= k < before.len() && before[k] == i;
                assert(at[k] == i);
            } else {
                assert(at[at.len() - 1] == n);
            }
        }
        assert forall|k: int| 0 <= k < at.len() implies 0 <= #[trigger] at[k] < points.len()
            && points[at[k]].ele == Some(elevations(points)[k]) by {
            if k < before.len() {
                assert(at[k] == before[k]);
                assert(fewer[before[k]] == points[before[k]]);
            }
        }
        assert forall|j: int, k: int| 0 <= j < k < at.len() implies at[j] < at[k] by {
            assert(at[j] == before[j]);
            if k < before.len() {
                assert(at[k] == before[k]);
            }
        }
        assert(at.len() == elevations(points).len());
    }
}

/// Whether `heights` orders the elevations as their values are ordered, and `reaches`
/// tells for ten metres whether one lies `band` above another.
pub open spec fn compares_heights<R>(
    reaches: R,
    heights: spec_fn(Binary64) -> int,
    band: int,
    elevations: Seq<Binary64>,
) -> bool where R: Fn(Binary64, Binary64, Binary64) -> bool {
    &&& band > 0
    &&& forall|i: int| 0 <= i < elevations.len() ==> !(#[trigger] elevations[i]).nan()
    &&& forall|i: int, j: int|
        #![trigger elevations[i], elevations[j]]
        0 <= i < elevations.len() && 0 <= j < elevations.len() ==> (heights(elevations[i])
            <= heights(elevations[j])) == (elevations[i].rank() <= elevations[j].rank())
    &&& forall|i: int, j: int, answer: bool|
        0 <= i < elevations.len() && 0 <= j < elevations.len() && #[trigger] call_ensures(
            reaches,
            (elevations[i], elevations[j], Binary64 { bits: 0x4024_0000_0000_0000 }),
            answer,
        ) ==> answer == (heights(elevations[i]) - heights(elevations[j]) >= band)
}

/// Whether the swing from turn `k` to the next is added: a climb to the gain, a descent
/// to the loss, with the elevations at its ends. `up` tells whether the first swing is a
/// climb; climbs and descents alternate.
pub open spec fn adds_swing<A>(
    accumulate: A,
    elevations: Seq<Binary64>,
    up: bool,
    turns: Seq<int>,
    gains: Seq<Binary64>,
    losses: Seq<Binary64>,
    k: int,
) -> bool where A: Fn(Binary64, Binary64, Binary64) -> Binary64 {
    let near = elevations[turns[k]];
    let far = elevations[turns[k + 1]];
    if (k % 2 == 0) == up {
        call_ensures(accumulate, (gains[k], far, near), gains[k + 1]) && losses[k + 1] == losses[k]
    } else {
        call_ensures(accumulate, (losses[k], near, far), losses[k + 1]) && gains[k + 1] == gains[k]
    }
}

/// How high an elevation is; in a descent, how low.
pub open spec fn toward(heights: spec_fn(Binary64) -> int, climb: bool, elevation: Binary64) -> int {
    if climb {
        heights(elevation)
    } else {
        -heights(elevation)
    }
}

/// Whether the elevations from `first` to before `end` are a climb from `first` to `last`
/// (a descent, where `climb` is false): `last` is the extreme, no way back within it
/// reaches the band, and after the opening swing it begins at the other extreme and is
/// at least as high as the band.
pub open spec fn is_swing(
    heights: spec_fn(Binary64) -> int,
    band: int,
    elevations: Seq<Binary64>,
    climb: bool,
    opening: bool,
    first: int,
    last: int,
    end: int,
) -> bool {
    &&& 0 <= first <= last < end <= elevations.len()
    &&& forall|x: int|
        first <= x < end ==> toward(heights, climb, #[trigger] elevations[x]) <= toward(
            heights,
            climb,
            elevations[last],
        )
    &&& forall|x: int, y: int|
        first <= x <= y < end ==> toward(heights, climb, #[trigger] elevations[x]) - toward(
            heights,
            climb,
            #[trigger] elevations[y],
        ) < band
    &&& !opening ==> {
        &&& toward(heights, climb, elevations[last]) - toward(heights, climb, elevations[first])
            >= band
        &&& forall|x: int|
            first <= x < end ==> toward(heights, climb, elevations[first]) <= toward(
                heights,
                climb,
                #[trigger] elevations[x],
            )
    }
}

/// Whether the walk turned at `turns`, with `gains` and `losses` the totals so far.
pub open spec fn swings_through<A>(
    accumulate: A,
    heights: spec_fn(Binary64) -> int,
    band: int,
    elevations: Seq<Binary64>,
    up: bool,
    turns: Seq<int>,
    gains: Seq<Binary64>,
    losses: Seq<Binary64>,
) -> bool where A: Fn(Binary64, Binary64, Binary64) -> Binary64 {
    &&& turns.len() >= 1 && gains.len() == turns.len() && losses.len() == turns.len()
    &&& turns[0] == 0 && gains[0].bits == 0 && losses[0].bits == 0
    &&& forall|k: int|
        0 <= k < turns.len() - 1 ==> {
            &&& #[trigger] adds_swing(accumulate, elevations, up, turns, gains, losses, k)
            &&& is_swing(
                heights,
                band,
                elevations,
                (k % 2 == 0) == up,
                k == 0,
                turns[k],
                turns[k + 1],
                turns[k + 1] + 1,
            )
        }
}

/// Whether state `s` is reached after the first `n` elevations with these turns, the
/// running swing having its extreme at `x` (its highest at `x` and its lowest at `y`,
/// where no swing has begun).
spec fn walked<A>(
    accumulate: A,
    heights: spec_fn(Binary64) -> int,
    band: int,
    e: Seq<Binary64>,
    up: bool,
    turns: Seq<int>,
    gains: Seq<Binary64>,
    losses: Seq<Binary64>,
    x: int,
    y: int,
    n: int,
    s: Climb,
) -> bool where A: Fn(Binary64, Binary64, Binary64) -> Binary64 {
    &&& swings_through(accumulate, heights, band, e, up, turns, gains, losses)
    &&& 1 <= n <= e.len()
    &&& 0 <= turns.last() < n
    &&& s.gain == gains.last() && s.loss == losses.last() && s.anchor == e[turns.last()]
    &&& match s.direction {
        Direction::Unknown => {
            &&& turns.len() == 1
            &&& 0 <= x < n && s.high == e[x]
            &&& 0 <= y < n && s.low == e[y]
            &&& heights(s.high) - heights(s.low) < band
            &&& forall|i: int|
                0 <= i < n ==> heights(s.low) <= heights(#[trigger] e[i]) <= heights(s.high)
        },
        Direction::Up => {
            &&& turns.len() >= 2
            &&& s.high == e[x]
            &&& ((turns.len() - 1) % 2 == 0) == up
            &&& is_swing(heights, band, e, true, false, turns.last(), x, n)
        },
        Direction::Down => {
            &&& turns.len() >= 2
            &&& s.low == e[x]
            &&& ((turns.len() - 1) % 2 == 0) != up
            &&& is_swing(heights, band, e, false, false, turns.last(), x, n)
        },
    }
}

proof fn lemma_turn<A>(
    accumulate: A,
    heights: spec_fn(Binary64) -> int,
    band: int,
    e: Seq<Binary64>,
    up: bool,
    turns: Seq<int>,
    gains: Seq<Binary64>,
    losses: Seq<Binary64>,
    x: int,
    gain: Binary64,
    loss: Binary64,
) where A: Fn(Binary64, Binary64, Binary64) -> Binary64
    requires
        swings_through(accumulate, heights, band, e, up, turns, gains, losses),
        is_swing(
            heights,
            band,
            e,
            ((turns.len() - 1) % 2 == 0) == up,
            turns.len() == 1,
            turns.last(),
            x,
            x + 1,
        ),
        if ((turns.len() - 1) % 2 == 0) == up {
            call_ensures(accumulate, (gains.last(), e[x], e[turns.last()]), gain) && loss
                == losses.last()
        } else {
            call_ensures(accumulate, (losses.last(), e[turns.last()], e[x]), loss) && gain
                == gains.last()
        },
    ensures
        swings_through(
            accumulate,
            heights,
            band,
            e,
            up,
            turns.push(x),
            gains.push(gain),
            losses.push(loss),
        ),
{
    let turns2 = turns.push(x);
    let gains2 = gains.push(gain);
    let losses2 = losses.push(loss);
    let m = turns.len() - 1;
    assert forall|k: int| 0 <= k < turns2.len() - 1 implies #[trigger] adds_swing(
        accumulate,
        e,
        up,
        turns2,
        gains2,
        losses2,
        k,
    ) by {
        if k < m {
            assert(adds_swing(accumulate, e, up, turns, gains, losses, k));
        }
    }
    assert forall|k: int| 0 <= k < turns2.len() - 1 implies is_swing(
        heights,
        band,
        e,
        (k % 2 == 0) == up,
        k == 0,
        #[trigger] turns2[k],
        turns2[k + 1],
        turns2[k + 1] + 1,
    ) by {
        if k < m {
            assert(adds_swing(accumulate, e, up, turns, gains, losses, k));
            assert(turns2[k] == turns[k] && turns2[k + 1] == turns[k + 1]);
        }
    }
}

proof fn lemma_swing_ends(
    heights: spec_fn(Binary64) -> int,
    band: int,
    e: Seq<Binary64>,
    climb: bool,
    first: int,
    x: int,
    n: int,
)
    requires
        band > 0,
        n < e.len(),
        is_swing(heights, band, e, climb, false, first, x, n),
        toward(heights, climb, e[x]) - toward(heights, climb, e[n]) >= band,
    ensures
        is_swing(heights, band, e, climb, false, first, x, x + 1),
        is_swing(heights, band, e, !climb, false, x, n, n + 1),
{
    assert forall|i: int| x <= i < n implies toward(heights, climb, e[x]) - toward(
        heights,
        climb,
        #[trigger] e[i],
    ) < band by {}
}

proof fn lemma_swing_goes_on(
    heights: spec_fn(Binary64) -> int,
    band: int,
    e: Seq<Binary64>,
    climb: bool,
    first: int,
    x: int,
    n: int,
    x2: int,
)
    requires
        band > 0,
        n < e.len(),
        is_swing(heights, band, e, climb, false, first, x, n),
        x2 == x || x2 == n,
        toward(heights, climb, e[x]) <= toward(heights, climb, e[x2]),
        toward(heights, climb, e[n]) <= toward(heights, climb, e[x2]),
        toward(heights, climb, e[x2]) - toward(heights, climb, e[n]) < band,
    ensures
        is_swing(heights, band, e, climb, false, first, x2, n + 1),
{
}

/// How the walk goes on within a climb.
proof fn lemma_walk_up<R, A>(
    reaches: R,
    accumulate: A,
    heights: spec_fn(Binary64) -> int,
    band: int,
    e: Seq<Binary64>,
    up: bool,
    turns: Seq<int>,
    gains: Seq<Binary64>,
    losses: Seq<Binary64>,
    x: int,
    y: int,
    n: int,
    s: Climb,
    mid: Climb,
    next: Climb,
) -> (r: (Seq<int>, Seq<Binary64>, Seq<Binary64>, int)) where
    R: Fn(Binary64, Binary64, Binary64) -> bool,
    A: Fn(Binary64, Binary64, Binary64) -> Binary64,

    requires
        compares_heights(reaches, heights, band, e),
        n < e.len(),
        walked(accumulate, heights, band, e, up, turns, gains, losses, x, y, n, s),
        s.direction == Direction::Up,
        climb_ends(reaches, accumulate, s, e[n], mid),
        descent_ends(reaches, accumulate, mid, e[n], next),
    ensures
        walked(accumulate, heights, band, e, up, r.0, r.1, r.2, r.3, y, n + 1, next),
        next.direction != Direction::Unknown,
{
    let first = turns.last();
    let high = s.high.spec_max(e[n]);
    let x2 = if e[x].rank() >= e[n].rank() {
        x
    } else {
        n
    };
    assert(!e[x].nan() && !e[n].nan());
    assert(high == e[x2]);
    assert(heights(e[n]) <= heights(e[x2]) && heights(e[x]) <= heights(e[x2]));
    if mid.direction == Direction::Down {
        assert(call_ensures(reaches, (e[x2], e[n], deadband()), true));
        assert(x2 == x);
        lemma_swing_ends(heights, band, e, true, first, x, n);
        lemma_turn(
            accumulate,
            heights,
            band,
            e,
            up,
            turns,
            gains,
            losses,
            x,
            mid.gain,
            mid.loss,
        );
        assert(mid.low.spec_min(e[n]) == e[n]);
        assert(!call_ensures(reaches, (e[n], e[n], deadband()), true));
        assert(next == mid);
        (turns.push(x), gains.push(mid.gain), losses.push(mid.loss), n)
    } else {
        assert(call_ensures(reaches, (e[x2], e[n], deadband()), false));
        lemma_swing_goes_on(heights, band, e, true, first, x, n, x2);
        (turns, gains, losses, x2)
    }
}

/// How the walk goes on within a descent.
proof fn lemma_walk_down<R, A>(
    reaches: R,
    accumulate: A,
    heights: spec_fn(Binary64) -> int,
    band: int,
    e: Seq<Binary64>,
    up: bool,
    turns: Seq<int>,
    gains: Seq<Binary64>,
    losses: Seq<Binary64>,
    x: int,
    y: int,
    n: int,
    s: Climb,
    mid: Climb,
    next: Climb,
) -> (r: (Seq<int>, Seq<Binary64>, Seq<Binary64>, int)) where
    R: Fn(Binary64, Binary64, Binary64) -> bool,
    A: Fn(Binary64, Binary64, Binary64) -> Binary64,

    requires
        compares_heights(reaches, heights, band, e),
        n < e.len(),
        walked(accumulate, heights, band, e, up, turns, gains, losses, x, y, n, s),
        s.direction == Direction::Down,
        climb_ends(reaches, accumulate, s, e[n], mid),
        descent_ends(reaches, accumulate, mid, e[n], next),
    ensures
        walked(accumulate, heights, band, e, up, r.0, r.1, r.2, r.3, y, n + 1, next),
        next.direction != Direction::Unknown,
{
    let first = turns.last();
    let low = s.low.spec_min(e[n]);
    let x2 = if e[x].rank() <= e[n].rank() {
        x
    } else {
        n
    };
    assert(!e[x].nan() && !e[n].nan());
    assert(low == e[x2]);
    assert(heights(e[x2]) <= heights(e[n]) && heights(e[x2]) <= heights(e[x]));
    if next.direction == Direction::Up {
        assert(call_ensures(reaches, (e[n], e[x2], deadband()), true));
        assert(x2 == x);
        lemma_swing_ends(heights, band, e, false, first, x, n);
        lemma_turn(
            accumulate,
            heights,
            band,
            e,
            up,
            turns,
            gains,
            losses,
            x,
            next.gain,
            next.loss,
        );
        (turns.push(x), gains.push(next.gain), losses.push(next.loss), n)
    } else {
        assert(call_ensures(reaches, (e[n], e[x2], deadband()), false));
        lemma_swing_goes_on(heights, band, e, false, first, x, n, x2);
        (turns, gains, losses, x2)
    }
}

/// How the walk goes on where no swing has reached the band.
proof fn lemma_walk_off<R, A>(
    reaches: R,
    accumulate: A,
    heights: spec_fn(Binary64) -> int,
    band: int,
    e: Seq<Binary64>,
    up: bool,
    turns: Seq<int>,
    gains: Seq<Binary64>,
    losses: Seq<Binary64>,
    x: int,
    y: int,
    n: int,
    s: Climb,
    mid: Climb,
    next: Climb,
) -> (r: (bool, Seq<int>, Seq<Binary64>, Seq<Binary64>, int, int)) where
    R: Fn(Binary64, Binary64, Binary64) -> bool,
    A: Fn(Binary64, Binary64, Binary64) -> Binary64,

    requires
        compares_heights(reaches, heights, band, e),
        n < e.len(),
        walked(accumulate, heights, band, e, up, turns, gains, losses, x, y, n, s),
        s.direction == Direction::Unknown,
        climb_ends(reaches, accumulate, s, e[n], mid),
        descent_ends(reaches, accumulate, mid, e[n], next),
    ensures
        walked(accumulate, heights, band, e, r.0, r.1, r.2, r.3, r.4, r.5, n + 1, next),
{
    let high = s.high.spec_max(e[n]);
    let low = s.low.spec_min(e[n]);
    assert(!e[x].nan() && !e[y].nan() && !e[n].nan());
    let x2 = if e[x].rank() >= e[n].rank() {
        x
    } else {
        n
    };
    let y2 = if e[y].rank() <= e[n].rank() {
        y
    } else {
        n
    };
    assert(high == e[x2] && low == e[y2]);
    assert(heights(e[n]) <= heights(e[x2]) && heights(e[x]) <= heights(e[x2]));
    assert(heights(e[y2]) <= heights(e[n]) && heights(e[y2]) <= heights(e[y]));
    if mid.direction == Direction::Down {
        assert(call_ensures(reaches, (e[x2], e[n], deadband()), true));
        assert(x2 == x);
        assert(is_swing(heights, band, e, true, true, 0, x, x + 1));
        assert(is_swing(heights, band, e, false, false, x, n, n + 1));
        assert(swings_through(accumulate, heights, band, e, true, turns, gains, losses));
        lemma_turn(
            accumulate,
            heights,
            band,
            e,
            true,
            turns,
            gains,
            losses,
            x,
            mid.gain,
            mid.loss,
        );
        assert(mid.low.spec_min(e[n]) == e[n]);
        assert(!call_ensures(reaches, (e[n], e[n], deadband()), true));
        assert(next == mid);
        (true, turns.push(x), gains.push(mid.gain), losses.push(mid.loss), n, y)
    } else if next.direction == Direction::Up {
        assert(call_ensures(reaches, (e[n], e[y2], deadband()), true));
        assert(y2 == y);
        assert(is_swing(heights, band, e, false, true, 0, y, y + 1));
        assert(is_swing(heights, band, e, true, false, y, n, n + 1));
        assert(swings_through(accumulate, heights, band, e, false, turns, gains, losses));
        lemma_turn(
            accumulate,
            heights,
            band,
            e,
            false,
            turns,
            gains,
            losses,
            y,
            next.gain,
            next.loss,
        );
        (false, turns.push(y), gains.push(next.gain), losses.push(next.loss), n, y)
    } else {
        assert(call_ensures(reaches, (e[x2], e[n], deadband()), false));
        assert(call_ensures(reaches, (e[n], e[y2], deadband()), false));
        (up, turns, gains, losses, x2, y2)
    }
}

proof fn lemma_walk<R, A>(
    reaches: R,
    accumulate: A,
    heights: spec_fn(Binary64) -> int,
    band: int,
    e: Seq<Binary64>,
    states: Seq<Climb>,
    between: Seq<Climb>,
    n: int,
) -> (r: (bool, Seq<int>, Seq<Binary64>, Seq<Binary64>, int, int)) where
    R: Fn(Binary64, Binary64, Binary64) -> bool,
    A: Fn(Binary64, Binary64, Binary64) -> Binary64,

    requires
        compares_heights(reaches, heights, band, e),
        climb_trace(reaches, accumulate, e, states, between),
        1 <= n <= e.len(),
    ensures
        walked(accumulate, heights, band, e, r.0, r.1, r.2, r.3, r.4, r.5, n, states[n - 1]),
    decreases n,
{
    if n == 1 {
        let zero = Binary64 { bits: 0 };
        (true, seq![0int], seq![zero], seq![zero], 0, 0)
    } else {
        let (up, turns, gains, losses, x, y) = lemma_walk(
            reaches,
            accumulate,
            heights,
            band,
            e,
            states,
            between,
            n - 1,
        );
        let k = n - 2;
        let s = states[k];
        let mid = between[k];
        let next = states[k + 1];
        assert(climb_ends(reaches, accumulate, s, e[k + 1], mid));
        assert(descent_ends(reaches, accumulate, mid, e[k + 1], next));
        match s.direction {
            Direction::Unknown => lemma_walk_off(
                reaches,
                accumulate,
                heights,
                band,
                e,
                up,
                turns,
                gains,
                losses,
                x,
                y,
                n - 1,
                s,
                mid,
                next,
            ),
            Direction::Up => {
                let r = lemma_walk_up(
                    reaches,
                    accumulate,
                    heights,
                    band,
                    e,
                    up,
                    turns,
                    gains,
                    losses,
                    x,
                    y,
                    n - 1,
                    s,
                    mid,
                    next,
                );
                (up, r.0, r.1, r.2, r.3, y)
            },
            Direction::Down => {
                let r = lemma_walk_down(
                    reaches,
                    accumulate,
                    heights,
                    band,
                    e,
                    up,
                    turns,
                    gains,
                    losses,
                    x,
                    y,
                    n - 1,
                    s,
                    mid,
                    next,
                );
                (up, r.0, r.1, r.2, r.3, y)
            },
        }
    }
}

/// Where no two elevations lie the band apart, the climb is counted from the first
/// elevation to the highest, and the descent from the first to the lowest. Otherwise
/// the profile is cut into alternating climbs and descents at its turning points: every
/// one of them is counted once, each climb as gain and each descent as loss, with the
/// elevations at its ends, and all but the opening one are at least as high as the band
/// and hold no way back that is.
pub proof fn every_swing_is_counted<R, A>(
    reaches: R,
    accumulate: A,
    heights: spec_fn(Binary64) -> int,
    band: int,
    elevations: Seq<Binary64>,
    gain: Binary64,
    loss: Binary64,
) where
    R: Fn(Binary64, Binary64, Binary64) -> bool,
    A: Fn(Binary64, Binary64, Binary64) -> Binary64,

    requires
        elevations.len() > 0,
        compares_heights(reaches, heights, band, elevations),
        gain_and_loss(reaches, accumulate, elevations, gain, loss),
    ensures
        ({
            ||| exists|x: int, y: int|
                {
                    &&& 0 <= x < elevations.len() && 0 <= y < elevations.len()
                    &&& forall|i: int|
                        0 <= i < elevations.len() ==> heights(elevations[y]) <= heights(
                            #[trigger] elevations[i],
                        ) <= heights(elevations[x])
                    &&& heights(elevations[x]) - heights(elevations[y]) < band
                    &&& #[trigger] call_ensures(
                        accumulate,
                        (Binary64 { bits: 0 }, elevations[x], elevations[0]),
                        gain,
                    )
                    &&& #[trigger] call_ensures(
                        accumulate,
                        (Binary64 { bits: 0 }, elevations[0], elevations[y]),
                        loss,
                    )
                }
            ||| exists|
                up: bool,
                turns: Seq<int>,
                gains: Seq<Binary64>,
                losses: Seq<Binary64>,
            |
                {
                    &&& #[trigger] swings_through(
                        accumulate,
                        heights,
                        band,
                        elevations,
                        up,
                        turns,
                        gains,
                        losses,
                    )
                    &&& turns.len() >= 3
                    &&& is_swing(
                        heights,
                        band,
                        elevations,
                        (turns.len() % 2 == 0) == up,
                        false,
                        turns[turns.len() - 2],
                        turns[turns.len() - 1],
                        elevations.len() as int,
                    )
                    &&& gain == gains.last() && loss == losses.last()
                }
        }),
{
    let e = elevations;
    let (states, between) = choose|states: Seq<Climb>, between: Seq<Climb>|
        #[trigger] climb_trace(reaches, accumulate, elevations, states, between) && totals(
            accumulate,
            states.last(),
            gain,
            loss,
        );
    let n = elevations.len() as int;
    let (up, turns, gains, losses, x, y) = lemma_walk(
        reaches,
        accumulate,
        heights,
        band,
        elevations,
        states,
        between,
        n,
    );
    let s = states[n - 1];
    assert(states.last() == s);
    if s.direction == Direction::Unknown {
        assert(call_ensures(accumulate, (Binary64 { bits: 0 }, e[x], e[0]), gain));
        assert(call_ensures(accumulate, (Binary64 { bits: 0 }, e[0], e[y]), loss));
    } else {
        let climb = s.direction == Direction::Up;
        assert(is_swing(heights, band, e, climb, false, turns.last(), x, x + 1));
        lemma_turn(accumulate, heights, band, e, up, turns, gains, losses, x, gain, loss);
        let turns2 = turns.push(x);
        assert(turns2[turns2.len() - 2] == turns.last());
        assert(swings_through(
            accumulate,
            heights,
            band,
            e,
            up,
            turns2,
            gains.push(gain),
            losses.push(loss),
        ));
    }
}

/// The heights of the climbs (or descents) among the first `n` swings, added up.
pub open spec fn swing_heights(
    heights: spec_fn(Binary64) -> int,
    elevations: Seq<Binary64>,
    up: bool,
    turns: Seq<int>,
    climbs: bool,
    n: int,
) -> int
    decreases n,
{
    if n <= 0 {
        0
    } else {
        let before = swing_heights(heights, elevations, up, turns, climbs, n - 1);
        if (((n - 1) % 2 == 0) == up) == climbs {
            before + toward(heights, climbs, elevations[turns[n]]) - toward(
                heights,
                climbs,
                elevations[turns[n - 1]],
            )
        } else {
            before
        }
    }
}

/// Where the totals are exact up to a limit, the gain is the sum of the heights of all
/// climbs and the loss that of all descents; neither ever shrinks, and the gain less the
/// loss is what the last turning point lies above the first elevation.
pub proof fn gain_less_loss_is_the_height_won<A>(
    accumulate: A,
    heights: spec_fn(Binary64) -> int,
    value: spec_fn(Binary64) -> int,
    limit: int,
    band: int,
    elevations: Seq<Binary64>,
    up: bool,
    turns: Seq<int>,
    gains: Seq<Binary64>,
    losses: Seq<Binary64>,
    n: int,
) where A: Fn(Binary64, Binary64, Binary64) -> Binary64
    requires
        swings_through(accumulate, heights, band, elevations, up, turns, gains, losses),
        0 <= n < turns.len(),
        value(Binary64 { bits: 0 }) == 0,
        forall|total: Binary64, a: Binary64, b: Binary64, sum: Binary64| #[trigger]
            call_ensures(accumulate, (total, a, b), sum) && value(total) + heights(a) - heights(b)
                <= limit ==> value(sum) == value(total) + heights(a) - heights(b),
        swing_heights(heights, elevations, up, turns, true, n) <= limit,
        swing_heights(heights, elevations, up, turns, false, n) <= limit,
    ensures
        value(gains[n]) == swing_heights(heights, elevations, up, turns, true, n),
        value(losses[n]) == swing_heights(heights, elevations, up, turns, false, n),
        n > 0 ==> value(gains[n - 1]) <= value(gains[n]) && value(losses[n - 1]) <= value(
            losses[n],
        ),
        value(gains[n]) - value(losses[n]) == heights(elevations[turns[n]]) - heights(
            elevations[0],
        ),
    decreases n,
{
    if n > 0 {
        let k = n - 1;
        let climb = (k % 2 == 0) == up;
        assert(adds_swing(accumulate, elevations, up, turns, gains, losses, k));
        assert(toward(heights, climb, elevations[turns[k]]) <= toward(
            heights,
            climb,
            elevations[turns[n]],
        ));
        gain_less_loss_is_the_height_won(
            accumulate,
            heights,
            value,
            limit,
            band,
            elevations,
            up,
            turns,
            gains,
            losses,
            k,
        );
    } else {
        assert(gains[0] == Binary64 { bits: 0 } && losses[0] == Binary64 { bits: 0 });
    }
}

/// Without elevations there is neither climb nor descent.
pub proof fn flat_routes_have_no_climb<R, A>(
    reaches: R,
    accumulate: A,
    points: Seq<RoutePoint>,
    gain: Binary64,
    loss: Binary64,
) where
    R: Fn(Binary64, Binary64, Binary64) -> bool,
    A: Fn(Binary64, Binary64, Binary64) -> Binary64,

    requires
        forall|i: int| 0 <= i < points.len() ==> (#[trigger] points[i]).ele is None,
        gain_and_loss(reaches, accumulate, elevations(points), gain, loss),
    ensures
        gain.bits == 0,
        loss.bits == 0,
{
    elevations_are_those_of_the_points(points);
    if elevations(points).len() > 0 {
        let at = choose|at: Seq<int>|
            {
                &&& #[trigger] at.len() == elevations(points).len()
                &&& forall|k: int|
                    0 <= k < at.len() ==> 0 <= #[trigger] at[k] < points.len() && points[at[k]].ele
                        == Some(elevations(points)[k])
                &&& forall|j: int, k: int| 0 <= j < k < at.len() ==> at[j] < at[k]
                &&& forall|i: int|
                    0 <= i < points.len() && (#[trigger] points[i]).ele is Some ==> at.contains(i)
            };
        assert(points[at[0]].ele is Some);
    }
}

/// An elevation that is not a number changes nothing in the walk, as no difference to it
/// reaches the deadband.
pub proof fn missing_numbers_change_nothing<R, A>(
    reaches: R,
    accumulate: A,
    s: Climb,
    ele: Binary64,
    mid: Climb,
    next: Climb,
) where
    R: Fn(Binary64, Binary64, Binary64) -> bool,
    A: Fn(Binary64, Binary64, Binary64) -> Binary64,

    requires
        ele.nan(),
        !s.high.nan() && !s.low.nan(),
        forall|a: Binary64, b: Binary64, answer: bool| #[trigger]
            call_ensures(
                reaches,
                (a, b, Binary64 { bits: 0x4024_0000_0000_0000 }),
                answer,
            ) && (a.nan() || b.nan()) ==> !answer,
        climb_ends(reaches, accumulate, s, ele, mid),
        descent_ends(reaches, accumulate, mid, ele, next),
    ensures
        next == s,
{
}

} // verus!
