//! The first passage of a rod: it is recorded once, in the direction in which the rod left, and no
//! later step and no change of the forces alters it.

use vstd::prelude::*;
use crate::config::Physics;
use crate::double::Double;
use crate::formula::{binary_gives, gives, Arithmetic, BinaryOp, ONE};
use crate::model::{PASS_DIRECTION_LEFT, PASS_DIRECTION_NONE, PASS_DIRECTION_RIGHT};
use crate::simulation::{step_between, targets_gives, walk, VisualParams, VisualSimulation};

verus! {

/// What can be done to a rod under way.
pub enum Act {
    Step,
    Steps { step_count: usize },
    Forces { f: Double, gamma: Double, delta: Double },
}

impl VisualSimulation {
    /// Whether an act leads from this state to `after`.
    pub open spec fn acted<K: Arithmetic>(self, k: &K, act: Act, after: VisualSimulation) -> bool {
        match act {
            Act::Step => self.stepped(k, after),
            Act::Steps { step_count } => self.stepped_many(k, step_count as int, after),
            Act::Forces { f, gamma, delta } => after == self.with_forces(f, gamma, delta),
        }
    }

    /// Whether a passage is recorded exactly when there is a direction.
    pub open spec fn direction_fits(self) -> bool {
        if self.first_passed {
            self.pass_direction == PASS_DIRECTION_RIGHT || self.pass_direction
                == PASS_DIRECTION_LEFT
        } else {
            self.pass_direction == PASS_DIRECTION_NONE
        }
    }

    /// Whether `after` has the start and the targets of this state, and its passage if there is one.
    pub open spec fn passage_kept(self, after: VisualSimulation) -> bool {
        &&& after.x0 == self.x0
        &&& after.target_right_x == self.target_right_x
        &&& after.target_left_x == self.target_left_x
        &&& after.physics == self.physics
        &&& self.first_passed ==> after.first_passed && after.pass_direction == self.pass_direction
    }

    /// Whether a step to `after` records what it should: without an earlier passage, the direction
    /// is right exactly when the rod is beyond the right target, and left exactly when it is below
    /// the left one; with one, nothing. The run is complete with its last step, whatever passed.
    pub open spec fn step_recorded(self, after: VisualSimulation) -> bool {
        &&& self.passage_kept(after)
        &&& after.direction_fits()
        &&& !self.first_passed && !self.target_right_x.below(self.target_left_x) ==> {
            &&& after.pass_direction == PASS_DIRECTION_RIGHT <==> self.target_right_x.below(after.x)
            &&& after.pass_direction == PASS_DIRECTION_LEFT <==> after.x.below(self.target_left_x)
        }
        &&& after.completed == (self.completed || after.steps >= self.physics.max_steps)
    }
}

/// Whether act `i` leads from one state to the next.
pub open spec fn act_between<K: Arithmetic>(
    k: &K,
    states: Seq<VisualSimulation>,
    acts: Seq<Act>,
    i: int,
) -> bool {
    states[i].acted(k, acts[i], states[i + 1])
}

/// The states of a rod from its start on, along any acts.
pub open spec fn history<K: Arithmetic>(
    k: &K,
    params: VisualParams,
    physics: Physics,
    states: Seq<VisualSimulation>,
    acts: Seq<Act>,
) -> bool {
    &&& states.len() == acts.len() + 1
    &&& states[0].started(k, params, physics)
    &&& forall|i: int| 0 <= i < acts.len() ==> #[trigger] act_between(k, states, acts, i)
}

/// Whether all steps of a walk record what they should.
pub open spec fn walk_recorded(states: Seq<VisualSimulation>) -> bool {
    forall|i: int|
        0 <= i < states.len() - 1 ==> (#[trigger] states[i]).step_recorded(states[i + 1])
}

/// Whether an act records what it should. A number of steps is a walk of single ones; at the last
/// step and with new forces, the rod stays where it is and so does what is recorded.
pub open spec fn act_recorded<K: Arithmetic>(
    k: &K,
    before: VisualSimulation,
    act: Act,
    after: VisualSimulation,
) -> bool {
    let stays = after.pose() == before.pose() && after.first_passed == before.first_passed
        && after.pass_direction == before.pass_direction && after.steps == before.steps;
    match act {
        Act::Step => if before.steps < before.physics.max_steps {
            before.step_recorded(after)
        } else {
            stays && after.completed
        },
        Act::Steps { step_count } => if before.completed || before.steps
            >= before.physics.max_steps {
            stays && after.completed
        } else {
            exists|states: Seq<VisualSimulation>|
                {
                    &&& #[trigger] walk(k, states)
                    &&& states[0] == before
                    &&& states.last() == after
                    &&& states.len() == before.steps_made(step_count as int) + 1
                    &&& walk_recorded(states)
                }
        },
        Act::Forces { .. } => stays && after.completed == before.completed,
    }
}

proof fn lemma_step<K: Arithmetic>(k: &K, before: VisualSimulation, after: VisualSimulation)
    requires
        before.direction_fits(),
        before.steps < before.physics.max_steps,
        before.stepped(k, after),
    ensures
        before.step_recorded(after),
        after.steps == before.steps + 1,
{
}

proof fn lemma_walk<K: Arithmetic>(k: &K, states: Seq<VisualSimulation>, n: int)
    requires
        walk(k, states),
        states[0].direction_fits(),
        states[0].steps + states.len() - 1 <= states[0].physics.max_steps,
        0 <= n < states.len(),
    ensures
        states[n].direction_fits(),
        states[0].passage_kept(states[n]),
        states[n].steps == states[0].steps + n,
        forall|i: int| 0 <= i < n ==> (#[trigger] states[i]).step_recorded(states[i + 1]),
    decreases n,
{
    if n > 0 {
        lemma_walk(k, states, n - 1);
        assert(step_between(k, states, n - 1));
        lemma_step(k, states[n - 1], states[n]);
    }
}

proof fn lemma_act<K: Arithmetic>(
    k: &K,
    before: VisualSimulation,
    act: Act,
    after: VisualSimulation,
)
    requires
        before.direction_fits(),
        before.acted(k, act, after),
    ensures
        after.direction_fits(),
        before.passage_kept(after),
        act_recorded(k, before, act, after),
{
    match act {
        Act::Step => {
            if before.steps < before.physics.max_steps {
                lemma_step(k, before, after);
            }
        },
        Act::Steps { step_count } => {
            if !before.completed && before.steps < before.physics.max_steps {
                let states = choose|states: Seq<VisualSimulation>|
                    {
                        &&& #[trigger] walk(k, states)
                        &&& states[0] == before
                        &&& states.last() == after
                        &&& states.len() == before.steps_made(step_count as int) + 1
                    };
                lemma_walk(k, states, states.len() - 1);
                assert(walk_recorded(states));
            }
        },
        Act::Forces { f, gamma, delta } => {},
    }
}

/// Whether one more than a number is not below one less.
pub open spec fn keeps_order<K: Arithmetic>(k: &K) -> bool {
    forall|x: Double, more: Double, less: Double| #[trigger]
        binary_gives(k, BinaryOp::Sum, x, Double { bits: ONE }, more) && #[trigger] binary_gives(
            k,
            BinaryOp::Difference,
            x,
            Double { bits: ONE },
            less,
        ) ==> !more.below(less)
}

/// Where one more than a number is not below one less, the left target of a rod is not above the
/// right one.
pub proof fn law_targets_in_order<K: Arithmetic>(k: &K, x0: Double, targets: (Double, Double))
    requires
        keeps_order(k),
        targets_gives(k, x0, targets),
    ensures
        !targets.0.below(targets.1),
{
    reveal_with_fuel(gives, 2);
}

/// Whatever is done to a rod after its start, step by step, by many steps or with new forces in
/// between: a passage is recorded exactly when there is a direction, every step records the passage
/// that it makes and none if there was one, what was recorded stays, and the targets stay those one
/// period from the start.
pub proof fn law_recorded_passages<K: Arithmetic>(
    k: &K,
    params: VisualParams,
    physics: Physics,
    states: Seq<VisualSimulation>,
    acts: Seq<Act>,
    i: int,
    n: int,
)
    requires
        history(k, params, physics, states, acts),
        0 <= i <= n < states.len(),
    ensures
        states[n].direction_fits(),
        states[n].first_passed <==> states[n].pass_direction != PASS_DIRECTION_NONE,
        states[i].passage_kept(states[n]),
        targets_gives(k, states[n].x0, (states[n].target_right_x, states[n].target_left_x)),
        n < acts.len() ==> act_recorded(k, states[n], acts[n], states[n + 1]),
    decreases n,
{
    if n > 0 {
        if i < n {
            law_recorded_passages(k, params, physics, states, acts, i, n - 1);
        } else {
            law_recorded_passages(k, params, physics, states, acts, n - 1, n - 1);
        }
        assert(act_between(k, states, acts, n - 1));
        lemma_act(k, states[n - 1], acts[n - 1], states[n]);
    }
    if n < acts.len() {
        assert(act_between(k, states, acts, n));
        lemma_act(k, states[n], acts[n], states[n + 1]);
    }
}

} // verus!
