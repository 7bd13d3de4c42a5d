//! The state of the animation window: the rod that it shows, the camera, the trail, and what the
//! controls do.

use vstd::prelude::*;
use vstd::string::*;
use crate::channel::{omega, omega_gives};
use crate::config::{Config, Physics};
use crate::double::Double;
use crate::formula::{
    exp_of, floor_of, gives, lit, minus, modulo, nat_of, neg_of, num, over, plus, times, Arithmetic,
    Calc, Expr, MINUS_ONE, ONE, TAU,
};
use crate::model::{PASS_DIRECTION_LEFT, PASS_DIRECTION_RIGHT};
use crate::simulation::{walk, VisualParams, VisualSimulation};

verus! {

/// Points of the trail at most.
pub const TRAIL_LIMIT: usize = 900;

/// Steps of the rod from one frame to the next.
pub const STEPS_PER_FRAME: usize = 1_000;

/// The bits of the largest distance of the camera from the rod, 0.8.
pub const CAMERA_MAX_LAG: u64 = 0x3fe9_9999_9999_999a;

/// The bits of the longest time that the camera moves at once, 0.1.
pub const CAMERA_MAX_DT: u64 = 0x3fb9_9999_9999_999a;

/// The bits of the negative rate at which the camera follows, -8.
pub const CAMERA_FOLLOW_RATE: u64 = 0xc020_0000_0000_0000;

// ---- Camera ----

/// Whether `lag` tells how far the camera is behind its target.
pub open spec fn lag_gives<K: Arithmetic>(k: &K, target_x: Double, x: Double, lag: Double) -> bool {
    gives(k, minus(num(target_x), num(x)), lag)
}

/// Whether `place` is at the largest distance from the target, on the side that a lag tells.
pub open spec fn at_limit_gives<K: Arithmetic>(
    k: &K,
    target_x: Double,
    lag: Double,
    place: Double,
) -> bool {
    let side = if lag.below(Double::zero()) {
        lit(MINUS_ONE)
    } else {
        lit(ONE)
    };
    gives(k, minus(num(target_x), times(side, lit(CAMERA_MAX_LAG))), place)
}

/// Whether the camera comes to `after` when it moves towards its target for a time: the part
/// 1 - exp(-8 dt) of its way.
pub open spec fn approach_gives<K: Arithmetic>(
    k: &K,
    x: Double,
    target_x: Double,
    dt: Double,
    after: Double,
) -> bool {
    let part = minus(lit(ONE), exp_of(times(lit(CAMERA_FOLLOW_RATE), num(dt))));
    gives(k, plus(num(x), times(minus(num(target_x), num(x)), part)), after)
}

/// A camera that follows the rod along the channel.
#[derive(Clone, Copy, Debug)]
pub struct CameraFollow {
    pub x: Double,
}

/// Whether the camera goes from `x` to `after` in a time: it is first brought within the largest
/// distance, and then approaches its target. Times below 0 and beyond the longest count as those.
pub open spec fn camera_moved<K: Arithmetic>(
    k: &K,
    x: Double,
    target_x: Double,
    dt: Double,
    after: Double,
) -> bool {
    exists|lag: Double, from: Double|
        {
            &&& #[trigger] lag_gives(k, target_x, x, lag)
            &&& if (Double { bits: CAMERA_MAX_LAG }).below(lag.absolute()) {
                at_limit_gives(k, target_x, lag, from)
            } else {
                from == x
            }
            &&& #[trigger] approach_gives(
                k,
                from,
                target_x,
                dt.clamped(Double::zero(), Double { bits: CAMERA_MAX_DT }),
                after,
            )
        }
}

impl CameraFollow {
    /// A camera at a place.
    pub fn new(x: Double) -> (camera: CameraFollow)
        ensures
            camera.x == x,
    {
        CameraFollow { x }
    }

    /// Puts the camera at a place.
    pub fn reset(&mut self, x: Double)
        ensures
            final(self).x == x,
    {
        self.x = x;
    }

    /// Moves the camera towards its target.
    pub fn advance_toward<K: Arithmetic>(&mut self, k: &K, target_x: Double, dt: Double)
        ensures
            camera_moved(k, old(self).x, target_x, dt, final(self).x),
    {
        let dt_held = dt.clamp(Double::zero(), Double::from_bits(CAMERA_MAX_DT));
        let c = Calc::new(k);
        let target = c.num(target_x);
        let lag = c.minus(target, c.num(self.x)).value;
        assert(lag_gives(k, target_x, self.x, lag));
        let from = if Double::from_bits(CAMERA_MAX_LAG).lt(lag.abs()) {
            let side = if lag.lt(Double::zero()) {
                c.lit(MINUS_ONE)
            } else {
                c.lit(ONE)
            };
            c.minus(target, c.times(side, c.lit(CAMERA_MAX_LAG))).value
        } else {
            self.x
        };
        let x = c.num(from);
        let part = c.minus(c.lit(ONE), c.exp_of(c.times(c.lit(CAMERA_FOLLOW_RATE), c.num(dt_held))));
        let after = c.plus(x, c.times(c.minus(target, x), part)).value;
        assert(approach_gives(k, from, target_x, dt_held, after));
        self.x = after;
    }

    /// Where the camera is.
    pub fn x(&self) -> (x: Double)
        ensures
            x == self.x,
    {
        self.x
    }
}

// ---- Labels ----

/// The angle that the panel shows: between 0 and one turn.
pub fn display_angle<K: Arithmetic>(k: &K, phi: Double) -> (shown: Double)
    ensures
        gives(k, modulo(num(phi), lit(TAU)), shown),
{
    let c = Calc::new(k);
    c.modulo(c.num(phi), c.lit(TAU)).value
}

/// What the panel shows of a passage.
pub open spec fn pass_direction_shown(direction: i32) -> Seq<char> {
    if direction == PASS_DIRECTION_RIGHT {
        "右"@
    } else if direction == PASS_DIRECTION_LEFT {
        "左"@
    } else {
        "未"@
    }
}

/// What the panel shows of a passage.
pub fn pass_direction_display(direction: i32) -> (label: &'static str)
    ensures
        label@ == pass_direction_shown(direction),
{
    if direction == PASS_DIRECTION_RIGHT {
        "右"
    } else if direction == PASS_DIRECTION_LEFT {
        "左"
    } else {
        "未"
    }
}

/// What the start button says.
pub fn start_label(running: bool) -> (label: &'static str)
    ensures
        label@ == if running {
            "停止"@
        } else {
            "開始"@
        },
{
    if running {
        "停止"
    } else {
        "開始"
    }
}

/// The label of the control for `m`, with the text of the rod length.
pub fn point_count_label(length: &str) -> (label: String)
    ensures
        label@ == "m ( l = "@ + length@ + " )"@,
{
    let mut label = "m ( l = ".to_owned();
    label.append(length);
    label.append(" )");
    label
}

// ---- Window ----

/// A point of the trail.
#[derive(Clone, Copy, Debug)]
pub struct TrailPoint {
    pub x: Double,
    pub y: Double,
}

/// A trail with one more point; beyond the limit the oldest points are dropped.
pub open spec fn trail_with(trail: Seq<TrailPoint>, point: TrailPoint) -> Seq<TrailPoint> {
    let longer = trail.push(point);
    if longer.len() > TRAIL_LIMIT {
        longer.skip(longer.len() - TRAIL_LIMIT)
    } else {
        longer
    }
}

/// The controls that a window starts with: the first values of a configuration.
pub fn first_controls(config: &Config) -> (controls: Option<VisualParams>)
    ensures
        controls is Some <==> config.m@.len() > 0 && config.f@.len() > 0 && config.gamma@.len() > 0
            && config.delta@.len() > 0,
        controls matches Some(c) ==> c == (VisualParams {
            seed: 1,
            m: config.m@[0],
            f: config.f@[0],
            gamma: config.gamma@[0],
            delta: config.delta@[0],
        }),
{
    if config.m.len() > 0 && config.f.len() > 0 && config.gamma.len() > 0 && config.delta.len()
        > 0 {
        Some(
            VisualParams {
                seed: 1,
                m: config.m[0],
                f: config.f[0],
                gamma: config.gamma[0],
                delta: config.delta[0],
            },
        )
    } else {
        None
    }
}

/// The state of the animation window.
#[derive(Debug)]
pub struct AnimationApp {
    pub controls: VisualParams,
    pub simulation: VisualSimulation,
    pub camera: CameraFollow,
    pub running: bool,
    pub trail: Vec<TrailPoint>,
}

impl AnimationApp {
    /// The rod can be stepped, the controls can become those of a rod, and the trail is within its
    /// limit and ends at the rod.
    pub open spec fn well_formed(self) -> bool {
        &&& self.simulation.well_formed()
        &&& 0 < self.simulation.physics.n_wall <= i64::MAX
        &&& self.controls.m > i32::MIN
        &&& 0 < self.trail@.len() <= TRAIL_LIMIT
        &&& self.trail@.last() == self.place()
    }

    /// Where the rod is.
    pub open spec fn place(self) -> TrailPoint {
        TrailPoint { x: self.simulation.x, y: self.simulation.y }
    }

    /// Whether the window shows the start of a rod with the current controls.
    pub open spec fn at_start<K: Arithmetic>(self, k: &K, physics: Physics) -> bool {
        &&& self.simulation.started(k, self.controls, physics)
        &&& self.camera.x == self.simulation.x
        &&& self.trail@ == seq![self.place()]
    }

    /// A window that shows the start of a rod and stands still.
    pub fn new<K: Arithmetic>(k: &K, controls: VisualParams, physics: Physics) -> (app: AnimationApp)
        requires
            0 < physics.n_wall <= i64::MAX,
            controls.m > i32::MIN,
        ensures
            app.well_formed(),
            app.controls == controls,
            app.at_start(k, physics),
            !app.running,
    {
        let simulation = VisualSimulation::new(k, controls, physics);
        let camera = CameraFollow::new(simulation.x);
        let mut trail: Vec<TrailPoint> = Vec::new();
        trail.push(TrailPoint { x: simulation.x, y: simulation.y });
        AnimationApp { controls, simulation, camera, running: false, trail }
    }

    /// Starts over with the current controls, the seed included.
    pub fn reset<K: Arithmetic>(&mut self, k: &K)
        requires
            old(self).well_formed(),
        ensures
            final(self).well_formed(),
            final(self).controls == old(self).controls,
            final(self).running == old(self).running,
            final(self).at_start(k, old(self).simulation.physics),
    {
        self.simulation.reset(k, self.controls);
        self.camera.reset(self.simulation.x);
        let mut trail: Vec<TrailPoint> = Vec::new();
        trail.push(TrailPoint { x: self.simulation.x, y: self.simulation.y });
        self.trail = trail;
    }

    /// Adds the place of the rod to the trail.
    pub fn push_trail_point(&mut self)
        ensures
            final(self).trail@ == trail_with(old(self).trail@, old(self).place()),
            final(self).controls == old(self).controls,
            final(self).simulation == old(self).simulation,
            final(self).camera == old(self).camera,
            final(self).running == old(self).running,
    {
        let ghost before = self.trail@;
        self.trail.push(TrailPoint { x: self.simulation.x, y: self.simulation.y });
        let len: usize = self.trail.len();
        if len > TRAIL_LIMIT {
            let recent = self.trail.split_off(len - TRAIL_LIMIT);
            self.trail = recent;
            assert(self.trail@ =~= trail_with(before, old(self).place()));
        }
    }

    /// Whether a frame advances a running window: the rod makes the steps of a frame, its new place
    /// ends the trail, and the camera follows.
    pub open spec fn framed<K: Arithmetic>(
        self,
        k: &K,
        dt: Double,
        after: AnimationApp,
    ) -> bool {
        &&& after.controls == self.controls
        &&& after.simulation.same_rod(self.simulation)
        &&& after.simulation.steps == self.simulation.steps + self.simulation.steps_made(
            STEPS_PER_FRAME as int,
        )
        &&& after.simulation.completed == (after.simulation.steps
            >= self.simulation.physics.max_steps)
        &&& self.simulation.steps < self.simulation.physics.max_steps ==> exists|
            states: Seq<VisualSimulation>,
        |
            {
                &&& #[trigger] walk(k, states)
                &&& states[0] == self.simulation
                &&& states.last() == after.simulation
                &&& states.len() == self.simulation.steps_made(STEPS_PER_FRAME as int) + 1
            }
        &&& self.simulation.steps >= self.simulation.physics.max_steps ==> after.simulation == (
        VisualSimulation { completed: true, ..self.simulation })
        &&& after.trail@ == trail_with(self.trail@, after.place())
        &&& camera_moved(k, self.camera.x, after.simulation.x, dt, after.camera.x)
        &&& after.running == !after.simulation.completed
    }

    /// Advances the window by one frame: nothing moves while it stands still, and it stops once the
    /// rod has made its last step. Says whether another frame is wanted at once.
    pub fn advance<K: Arithmetic>(&mut self, k: &K, dt: Double) -> (repaint: bool)
        requires
            old(self).well_formed(),
        ensures
            final(self).well_formed(),
            !old(self).running ==> *final(self) == *old(self) && !repaint,
            old(self).running && old(self).simulation.completed ==> *final(self) == (AnimationApp {
                running: false,
                ..*old(self)
            }) && !repaint,
            old(self).running && !old(self).simulation.completed ==> old(self).framed(
                k,
                dt,
                *final(self),
            ) && repaint == final(self).running,
    {
        if !self.running {
            return false;
        }
        if self.simulation.completed {
            self.running = false;
            return false;
        }
        self.simulation.step_many(k, STEPS_PER_FRAME);
        self.push_trail_point();
        self.camera.advance_toward(k, self.simulation.x, dt);
        if self.simulation.completed {
            self.running = false;
            false
        } else {
            true
        }
    }

    /// The start button: a rod that has made its last step starts over, and the window starts or
    /// stops. Says whether a frame is wanted at once.
    pub fn press_start<K: Arithmetic>(&mut self, k: &K) -> (repaint: bool)
        requires
            old(self).well_formed(),
        ensures
            final(self).well_formed(),
            final(self).controls == old(self).controls,
            final(self).running == !old(self).running,
            repaint == final(self).running,
            if old(self).simulation.completed {
                final(self).at_start(k, old(self).simulation.physics)
            } else {
                *final(self) == (AnimationApp { running: !old(self).running, ..*old(self) })
            },
    {
        if self.simulation.completed {
            self.reset(k);
        }
        self.running = !self.running;
        self.running
    }

    /// The reset button: the window stops and the rod starts over.
    pub fn press_reset<K: Arithmetic>(&mut self, k: &K)
        requires
            old(self).well_formed(),
        ensures
            final(self).well_formed(),
            final(self).controls == old(self).controls,
            !final(self).running,
            final(self).at_start(k, old(self).simulation.physics),
    {
        self.running = false;
        self.reset(k);
    }

    /// Takes the controls as they are after a frame. A new seed waits for the next start. A new `m`
    /// stops the window and starts over. New forces act on the rod as it is.
    pub fn set_controls<K: Arithmetic>(
        &mut self,
        k: &K,
        controls: VisualParams,
        m_changed: bool,
        force_changed: bool,
    )
        requires
            old(self).well_formed(),
            controls.m > i32::MIN,
        ensures
            final(self).well_formed(),
            final(self).controls == controls,
            m_changed ==> !final(self).running && final(self).at_start(
                k,
                old(self).simulation.physics,
            ),
            !m_changed ==> final(self).running == old(self).running && final(self).trail == old(
                self,
            ).trail && final(self).camera == old(self).camera && final(self).simulation == (
            VisualSimulation {
                params: if force_changed {
                    VisualParams {
                        f: controls.f,
                        gamma: controls.gamma,
                        delta: controls.delta,
                        ..old(self).simulation.params
                    }
                } else {
                    old(self).simulation.params
                },
                ..old(self).simulation
            }),
    {
        self.controls = controls;
        if m_changed {
            self.running = false;
            self.reset(k);
        } else if force_changed {
            self.simulation.apply_force_params(controls.f, controls.gamma, controls.delta);
        }
    }
}

// ---- Drawing ----

/// The bits of 160, the points of a wall in one period.
pub const WALL_DENSITY: u64 = 0x4064_0000_0000_0000;

/// The bits of 40, the points of the middle line in one period.
pub const MIDDLE_DENSITY: u64 = 0x4044_0000_0000_0000;

/// The next integer towards the positive side.
pub open spec fn ceil_of(a: Expr) -> Expr {
    neg_of(floor_of(neg_of(a)))
}

/// Whether `count` pieces cover a section with so many points in one period.
pub open spec fn piece_count_gives<K: Arithmetic>(
    k: &K,
    x_min: Double,
    x_max: Double,
    density: u64,
    count: u64,
) -> bool {
    exists|pieces: Double| #[trigger]
        gives(k, ceil_of(times(minus(num(x_max), num(x_min)), lit(density))), pieces)
            && call_ensures(K::to_unsigned, (k, pieces), count)
}

/// How many pieces cover a section with so many points in one period.
pub fn piece_count<K: Arithmetic>(k: &K, x_min: Double, x_max: Double, density: u64) -> (count: u64)
    ensures
        piece_count_gives(k, x_min, x_max, density, count),
{
    let c = Calc::new(k);
    let exact = c.times(c.minus(c.num(x_max), c.num(x_min)), c.lit(density));
    let pieces = c.neg_of(c.floor_of(c.neg_of(exact))).value;
    assert(gives(k, ceil_of(times(minus(num(x_max), num(x_min)), lit(density))), pieces));
    k.to_unsigned(pieces)
}

/// The place of point `i` of a section that is cut into pieces.
pub open spec fn place_of(x_min: Double, x_max: Double, i: u64, count: u64) -> Expr {
    plus(
        num(x_min),
        over(times(minus(num(x_max), num(x_min)), nat_of(i)), nat_of(count)),
    )
}

/// The points of a section that is cut into pieces, with both ends.
pub fn section_places<K: Arithmetic>(k: &K, x_min: Double, x_max: Double, count: u64) -> (places:
    Vec<Double>)
    requires
        count < u64::MAX,
    ensures
        places@.len() == count + 1,
        forall|i: int|
            0 <= i < places@.len() ==> gives(
                k,
                place_of(x_min, x_max, i as u64, count),
                #[trigger] places@[i],
            ),
{
    let c = Calc::new(k);
    let mut places: Vec<Double> = Vec::new();
    let mut i: u64 = 0;
    while i <= count
        invariant
            c.k == k,
            count < u64::MAX,
            i <= count + 1,
            places@.len() == i,
            forall|j: int|
                0 <= j < places@.len() ==> gives(
                    k,
                    place_of(x_min, x_max, j as u64, count),
                    #[trigger] places@[j],
                ),
        decreases count + 1 - i,
    {
        let span = c.minus(c.num(x_max), c.num(x_min));
        let along = c.over(c.times(span, c.nat_of(i)), c.nat_of(count));
        places.push(c.plus(c.num(x_min), along).value);
        i = i + 1;
    }
    places
}

/// The upper and the lower wall at some places: one is the mirror image of the other.
pub fn wall_lines<K: Arithmetic>(k: &K, places: &Vec<Double>) -> (lines: (
    Vec<TrailPoint>,
    Vec<TrailPoint>,
))
    ensures
        lines.0@.len() == places@.len(),
        lines.1@.len() == places@.len(),
        forall|i: int|
            0 <= i < places@.len() ==> (#[trigger] lines.0@[i]).x == places@[i] && omega_gives(
                k,
                places@[i],
                lines.0@[i].y,
            ),
        forall|i: int|
            0 <= i < places@.len() ==> #[trigger] lines.1@[i] == (TrailPoint {
                x: places@[i],
                y: lines.0@[i].y.negated(),
            }),
{
    let mut top: Vec<TrailPoint> = Vec::new();
    let mut bottom: Vec<TrailPoint> = Vec::new();
    let mut i: usize = 0;
    while i < places.len()
        invariant
            i <= places.len(),
            top@.len() == i,
            bottom@.len() == i,
            forall|j: int|
                0 <= j < i ==> (#[trigger] top@[j]).x == places@[j] && omega_gives(
                    k,
                    places@[j],
                    top@[j].y,
                ),
            forall|j: int|
                0 <= j < i ==> #[trigger] bottom@[j] == (TrailPoint {
                    x: places@[j],
                    y: top@[j].y.negated(),
                }),
        decreases places.len() - i,
    {
        let x = places[i];
        let y = omega(k, x);
        top.push(TrailPoint { x, y });
        bottom.push(TrailPoint { x, y: y.neg() });
        i = i + 1;
    }
    (top, bottom)
}

/// Whether a place is in view.
pub fn in_view(x: Double, x_min: Double, x_max: Double) -> (b: bool)
    ensures
        b == (x_min.at_most(x) && x.at_most(x_max)),
{
    x_min.le(x) && x.le(x_max)
}

/// A trail never goes beyond its limit, and its newest points are those that were added last.
pub proof fn law_trail(trail: Seq<TrailPoint>, point: TrailPoint, i: int)
    requires
        trail.len() <= TRAIL_LIMIT,
        0 <= i < trail_with(trail, point).len(),
    ensures
        trail_with(trail, point).len() <= TRAIL_LIMIT,
        trail_with(trail, point).last() == point,
        i > 0 ==> trail_with(trail, point)[trail_with(trail, point).len() - 1 - i]
            == trail[trail.len() - i],
{
}

} // verus!
