//! The state of a window that shows a displayed rod at an adjustable speed.

use vstd::prelude::*;
use vstd::string::*;
use crate::config::Physics;
use crate::cpu_sim::{display_walk, VisualParams, VisualSimulation};
use crate::double::Double;
use crate::formula::{
    floor_of, gives, minus, nat_of, num, over, plus, times, Arithmetic, Calc, ONE,
};
use crate::renderer::{trail_with, TrailPoint, TRAIL_LIMIT};
use crate::text;

verus! {

/// Whether `due` are the steps that are due, with those of an elapsed time at a speed added.
pub open spec fn steps_due_gives<K: Arithmetic>(
    k: &K,
    remainder: Double,
    elapsed: Double,
    speed_scale: Double,
    delta_t: Double,
    due: Double,
) -> bool {
    gives(
        k,
        plus(num(remainder), over(times(num(elapsed), num(speed_scale)), num(delta_t))),
        due,
    )
}

/// Whether `whole` are the whole steps among those that are due.
pub open spec fn whole_steps_gives<K: Arithmetic>(k: &K, due: Double, whole: u64) -> bool {
    exists|floor: Double| #[trigger]
        gives(k, floor_of(num(due)), floor) && call_ensures(K::to_unsigned, (k, floor), whole)
}

/// The most steps of one frame for a rod with so many points.
pub open spec fn step_cap(point_count: int) -> int {
    let count = if point_count < 1 {
        1
    } else {
        point_count
    };
    let cap = 96_000int / count;
    if cap < 900 {
        900
    } else if cap > 8_000 {
        8_000
    } else {
        cap
    }
}

/// The most steps of one frame for a rod.
pub open spec fn rod_step_cap(params: VisualParams) -> int {
    step_cap(2 * params.m + 1)
}

/// The most steps of one frame: fewer for rods with more points.
pub fn adaptive_step_cap(point_count: i32) -> (cap: usize)
    ensures
        cap == step_cap(point_count as int),
{
    let count: usize = if point_count < 1 {
        1
    } else {
        point_count as usize
    };
    let cap: usize = 96_000 / count;
    if cap < 900 {
        900
    } else if cap > 8_000 {
        8_000
    } else {
        cap
    }
}

/// A rod with more points makes no more steps in a frame, and every rod makes at least 900 and at
/// most 8000.
pub proof fn law_step_cap(a: int, b: int)
    requires
        a <= b,
    ensures
        step_cap(b) <= step_cap(a),
        900 <= step_cap(a) <= 8_000,
{
    let x = if a < 1 {
        1
    } else {
        a
    };
    let y = if b < 1 {
        1
    } else {
        b
    };
    vstd::arithmetic::div_mod::lemma_div_is_ordered_by_denominator(96_000, x, y);
}

/// The label of the control for `m`.
pub fn point_count_label(m: i32) -> (label: String)
    requires
        i32::MIN <= 2 * m,
        2 * m + 1 <= i32::MAX,
    ensures
        label@ == "代表点 "@ + text::signed_numeral(2 * m + 1),
{
    let mut label = "代表点 ".to_owned();
    label.append(text::signed_decimal(2 * (m as i64) + 1).as_str());
    label
}

/// What the panel says of the passage.
pub fn passed_label(completed: bool) -> (label: &'static str)
    ensures
        label@ == if completed {
            "初通過 済"@
        } else {
            "初通過 未"@
        },
{
    if completed {
        "初通過 済"
    } else {
        "初通過 未"
    }
}

/// The state of the window.
#[derive(Debug)]
pub struct AnimationApp {
    pub controls: VisualParams,
    pub simulation: VisualSimulation,
    pub running: bool,
    pub speed_scale: Double,
    /// Steps that are due and were not made yet.
    pub step_remainder: Double,
    pub trail: Vec<TrailPoint>,
}

/// The steps of a frame and what is left of those that are due: beyond the most steps of a frame
/// the rest is dropped.
pub open spec fn frame_steps<K: Arithmetic>(
    k: &K,
    remainder: Double,
    elapsed: Double,
    speed_scale: Double,
    delta_t: Double,
    cap: int,
    steps: usize,
    left: Double,
) -> bool {
    exists|due: Double, whole: u64|
        {
            &&& #[trigger] steps_due_gives(k, remainder, elapsed, speed_scale, delta_t, due)
            &&& #[trigger] whole_steps_gives(k, due, whole)
            &&& if whole > cap {
                steps == cap && left == Double::zero()
            } else {
                steps == whole && gives(k, minus(num(due), nat_of(whole)), left)
            }
        }
}

impl AnimationApp {
    /// Where the rod is.
    pub open spec fn place(self) -> TrailPoint {
        TrailPoint { x: self.simulation.x, y: self.simulation.y }
    }

    /// Whether the window shows the start of a rod with the current controls.
    pub open spec fn at_start<K: Arithmetic>(self, k: &K, physics: Physics) -> bool {
        &&& self.simulation.started(k, self.controls, physics)
        &&& self.step_remainder == Double::zero()
        &&& self.trail@ == seq![self.place()]
    }

    /// A window with the usual rod that stands still.
    pub fn new<K: Arithmetic>(k: &K, physics: Physics) -> (app: AnimationApp)
        ensures
            app.at_start(k, physics),
            app.controls == (VisualParams {
                seed: 1,
                m: 8,
                force: Double { bits: crate::cpu_sim::TEN },
                beta_pe: Double { bits: ONE },
                delta_alpha_e_over_p: Double { bits: ONE },
            }),
            !app.running,
            app.speed_scale == (Double { bits: ONE }),
    {
        let controls = VisualParams::default();
        let simulation = VisualSimulation::new(k, controls, physics);
        let mut trail: Vec<TrailPoint> = Vec::new();
        trail.push(TrailPoint { x: simulation.x, y: simulation.y });
        AnimationApp {
            controls,
            simulation,
            running: false,
            speed_scale: Double::from_bits(ONE),
            step_remainder: Double::zero(),
            trail,
        }
    }

    /// Starts over with the current controls.
    pub fn reset<K: Arithmetic>(&mut self, k: &K)
        ensures
            final(self).at_start(k, old(self).simulation.physics),
            final(self).controls == old(self).controls,
            final(self).running == old(self).running,
            final(self).speed_scale == old(self).speed_scale,
    {
        self.simulation.reset(k, self.controls);
        self.step_remainder = Double::zero();
        let mut trail: Vec<TrailPoint> = Vec::new();
        trail.push(TrailPoint { x: self.simulation.x, y: self.simulation.y });
        self.trail = trail;
    }

    /// Adds the place of the rod to the trail.
    pub fn push_trail_point(&mut self)
        ensures
            final(self).trail@ == trail_with(old(self).trail@, old(self).place()),
            final(self).controls == old(self).controls,
            final(self).simulation == old(self).simulation,
            final(self).running == old(self).running,
            final(self).speed_scale == old(self).speed_scale,
            final(self).step_remainder == old(self).step_remainder,
    {
        let ghost before = self.trail@;
        self.trail.push(TrailPoint { x: self.simulation.x, y: self.simulation.y });
        let len: usize = self.trail.len();
        if len > TRAIL_LIMIT {
            let recent = self.trail.split_off(len - TRAIL_LIMIT);
            self.trail = recent;
            assert(self.trail@ =~= trail_with(before, old(self).place()));
        }
    }

    /// Whether a frame advances a running window by so many steps.
    pub open spec fn framed<K: Arithmetic>(
        self,
        k: &K,
        steps: usize,
        after: AnimationApp,
    ) -> bool {
        &&& after.controls == self.controls
        &&& after.speed_scale == self.speed_scale
        &&& after.running == !after.simulation.completed
        &&& if steps > 0 {
            &&& exists|states: Seq<VisualSimulation>|
                {
                    &&& #[trigger] display_walk(k, states)
                    &&& states[0] == self.simulation
                    &&& states.last() == after.simulation
                    &&& states.len() <= steps + 1
                    &&& after.simulation.completed || states.len() == steps + 1
                }
            &&& after.trail@ == trail_with(self.trail@, after.place())
        } else {
            &&& after.simulation == self.simulation
            &&& after.trail == self.trail
        }
    }

    /// Advances the window by one frame after an elapsed time. Says whether another frame is wanted
    /// at once.
    pub fn advance<K: Arithmetic>(&mut self, k: &K, elapsed: Double) -> (repaint: bool)
        requires
            old(self).simulation.well_formed(),
            i32::MIN <= 2 * old(self).controls.m,
            2 * old(self).controls.m + 1 <= i32::MAX,
            old(self).simulation.steps + 8_000 <= u64::MAX,
        ensures
            final(self).simulation.well_formed(),
            !old(self).running ==> *final(self) == *old(self) && !repaint,
            old(self).running && old(self).simulation.completed ==> *final(self) == (AnimationApp {
                running: false,
                ..*old(self)
            }) && !repaint,
            old(self).running && !old(self).simulation.completed ==> repaint == final(self).running
                && exists|steps: usize|
                {
                    &&& #[trigger] frame_steps(
                        k,
                        old(self).step_remainder,
                        elapsed,
                        old(self).speed_scale,
                        old(self).simulation.physics.delta_t,
                        rod_step_cap(old(self).controls),
                        steps,
                        final(self).step_remainder,
                    )
                    &&& old(self).framed(k, steps, *final(self))
                },
    {
        if !self.running {
            return false;
        }
        if self.simulation.completed {
            self.running = false;
            return false;
        }
        let ghost before = *self;
        let c = Calc::new(k);
        let gained = c.over(
            c.times(c.num(elapsed), c.num(self.speed_scale)),
            c.num(self.simulation.physics.delta_t),
        );
        let due = c.plus(c.num(self.step_remainder), gained).value;
        assert(steps_due_gives(
            k,
            before.step_remainder,
            elapsed,
            before.speed_scale,
            before.simulation.physics.delta_t,
            due,
        ));
        let cap: usize = adaptive_step_cap(self.controls.point_count());
        let floor = c.floor_of(c.num(due)).value;
        assert(gives(k, floor_of(num(due)), floor));
        let whole: u64 = k.to_unsigned(floor);
        assert(whole_steps_gives(k, due, whole));
        let steps: usize = if whole > cap as u64 {
            self.step_remainder = Double::zero();
            cap
        } else {
            self.step_remainder = c.minus(c.num(due), c.nat_of(whole)).value;
            whole as usize
        };
        if steps > 0 {
            self.simulation.step_many(k, steps);
            self.push_trail_point();
        }
        let repaint = !self.simulation.completed;
        if self.simulation.completed {
            self.running = false;
        }
        assert(frame_steps(
            k,
            before.step_remainder,
            elapsed,
            before.speed_scale,
            before.simulation.physics.delta_t,
            rod_step_cap(before.controls),
            steps,
            self.step_remainder,
        ));
        assert(before.framed(k, steps, *self));
        repaint
    }

    /// The start button: a rod that is done starts over, and the window starts or stops. Says
    /// whether a frame is wanted at once.
    pub fn press_start<K: Arithmetic>(&mut self, k: &K) -> (repaint: bool)
        ensures
            final(self).controls == old(self).controls,
            final(self).speed_scale == old(self).speed_scale,
            final(self).running == !old(self).running,
            repaint == final(self).running,
            if old(self).simulation.completed {
                final(self).at_start(k, old(self).simulation.physics)
            } else {
                *final(self) == (AnimationApp { running: !old(self).running, ..*old(self) })
            },
    {
        if self.simulation.completed {
            self.reset(k);
        }
        self.running = !self.running;
        self.running
    }

    /// The reset button: the window stops and the rod starts over.
    pub fn press_reset<K: Arithmetic>(&mut self, k: &K)
        ensures
            final(self).at_start(k, old(self).simulation.physics),
            final(self).controls == old(self).controls,
            final(self).speed_scale == old(self).speed_scale,
            !final(self).running,
    {
        self.running = false;
        self.reset(k);
    }

    /// Takes the controls as they are after a frame. Any change of the rod stops the window and
    /// starts over; the speed acts at once.
    pub fn set_controls<K: Arithmetic>(
        &mut self,
        k: &K,
        controls: VisualParams,
        speed_scale: Double,
        changed: bool,
    )
        ensures
            final(self).controls == controls,
            final(self).speed_scale == speed_scale,
            changed ==> !final(self).running && final(self).at_start(k, old(self).simulation.physics),
            !changed ==> *final(self) == (AnimationApp { controls, speed_scale, ..*old(self) }),
    {
        self.controls = controls;
        self.speed_scale = speed_scale;
        if changed {
            self.running = false;
            self.reset(k);
        }
    }
}

} // verus!
