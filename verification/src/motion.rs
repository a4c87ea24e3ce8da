use vstd::prelude::*;

verus! {

/// After this many calm steps in a row, the forces pause.
pub const SETTLE_LIMIT: u32 = 90;

/// Whether and how the layout moves: forces on or off, the step counter that
/// drives the gentle wobble, how many calm steps came in a row, and, during
/// an animated move to a new layout, whether the forces resume afterwards.
pub struct Motion {
    pub physics_on: bool,
    pub step_count: u64,
    pub settle_frames: u32,
    pub transition: Option<bool>,
}

/// What one time step does.
#[derive(PartialEq, Eq, Structural, Clone, Copy, Debug)]
pub enum StepKind {
    /// No nodes: nothing moves.
    Nothing,
    /// The animated move to a new layout goes on.
    Transition,
    /// The move arrived; where `resume` is set the forces ease back in.
    Arrived { resume: bool },
    /// Forces off: nodes hold still (the wobble is drawn, not simulated).
    Holding,
    /// The forces act.
    Forces,
}

/// The step counter plus one, wrapping around.
pub open spec fn next_count(c: u64) -> u64 {
    if c == u64::MAX {
        0
    } else {
        (c + 1) as u64
    }
}

/// The motion after a step's first half, and what the step does; `nodes` is
/// how many nodes there are and `arrived` whether an animated move reached
/// its target in this step.
pub open spec fn step_start(m: Motion, nodes: nat, arrived: bool) -> (Motion, StepKind) {
    if nodes == 0 {
        (m, StepKind::Nothing)
    } else {
        match m.transition {
            Some(resume) => if arrived {
                (Motion { physics_on: resume, transition: None, ..m }, StepKind::Arrived { resume })
            } else {
                (Motion { physics_on: true, ..m }, StepKind::Transition)
            },
            None => if !m.physics_on {
                (Motion { step_count: next_count(m.step_count), ..m }, StepKind::Holding)
            } else {
                (Motion { step_count: next_count(m.step_count), ..m }, StepKind::Forces)
            },
        }
    }
}

/// The motion after the forces acted: `calm` says that every node moved
/// slowly and the forces had fully eased in. The forces pause on the calm
/// step after `SETTLE_LIMIT` calm steps in a row.
pub open spec fn step_end(m: Motion, calm: bool) -> Motion {
    if calm {
        if m.settle_frames + 1 > SETTLE_LIMIT {
            Motion { physics_on: false, settle_frames: 0, ..m }
        } else {
            Motion { settle_frames: (m.settle_frames + 1) as u32, ..m }
        }
    } else {
        Motion { settle_frames: 0, ..m }
    }
}

impl Motion {
    /// A new graph: forces on, nothing counted, no move under way.
    pub fn new() -> (m: Motion)
        ensures
            m.physics_on && m.step_count == 0 && m.settle_frames == 0 && m.transition is None,
    {
        Motion { physics_on: true, step_count: 0, settle_frames: 0, transition: None }
    }

    /// Turns the forces on (they ease in from zero).
    pub fn resume_physics(&mut self)
        ensures
            *final(self) == (Motion { physics_on: true, ..*old(self) }),
    {
        self.physics_on = true;
    }

    /// Turns the forces off.
    pub fn pause(&mut self)
        ensures
            *final(self) == (Motion { physics_on: false, ..*old(self) }),
    {
        self.physics_on = false;
    }

    /// Starts an animated move to a new layout; the forces resume after it
    /// where `resume` is set.
    pub fn begin_layout_transition(&mut self, resume: bool)
        ensures
            *final(self) == (Motion { transition: Some(resume), physics_on: true, ..*old(self) }),
    {
        self.transition = Some(resume);
        self.physics_on = true;
    }

    /// Whether an animated move is under way.
    pub fn is_layout_animating(&self) -> (r: bool)
        ensures
            r == self.transition is Some,
    {
        self.transition.is_some()
    }

    /// The first half of a time step (see `step_start`).
    pub fn start_step(&mut self, nodes: usize, arrived: bool) -> (k: StepKind)
        ensures
            (*final(self), k) == step_start(*old(self), nodes as nat, arrived),
    {
        if nodes == 0 {
            return StepKind::Nothing;
        }
        match self.transition {
            Some(resume) => {
                if arrived {
                    self.transition = None;
                    self.physics_on = resume;
                    StepKind::Arrived { resume }
                } else {
                    self.physics_on = true;
                    StepKind::Transition
                }
            },
            None => {
                self.step_count = self.step_count.wrapping_add(1);
                if !self.physics_on {
                    StepKind::Holding
                } else {
                    StepKind::Forces
                }
            },
        }
    }

    /// The second half of a step in which the forces acted (see `step_end`).
    pub fn end_forces(&mut self, calm: bool)
        requires
            old(self).settle_frames <= SETTLE_LIMIT,
        ensures
            *final(self) == step_end(*old(self), calm),
            final(self).settle_frames <= SETTLE_LIMIT,
    {
        if calm {
            self.settle_frames = self.settle_frames + 1;
            if self.settle_frames > SETTLE_LIMIT {
                self.physics_on = false;
                self.settle_frames = 0;
            }
        } else {
            self.settle_frames = 0;
        }
    }
}

/// The motion after `k` calm steps of the forces.
pub open spec fn calm_steps(m: Motion, k: nat) -> Motion
    decreases k,
{
    if k == 0 {
        m
    } else {
        step_end(calm_steps(m, (k - 1) as nat), true)
    }
}

proof fn lemma_calm_count(m: Motion, k: nat)
    requires
        m.settle_frames == 0,
        m.physics_on,
        k <= SETTLE_LIMIT,
    ensures
        calm_steps(m, k) == (Motion { settle_frames: k as u32, ..m }),
    decreases k,
{
    if k > 0 {
        lemma_calm_count(m, (k - 1) as nat);
    }
}

/// With the forces on and no calm step counted, the forces keep acting
/// through `SETTLE_LIMIT` calm steps and pause on the next one, which also
/// resets the count.
pub proof fn law_settles(m: Motion)
    requires
        m.settle_frames == 0,
        m.physics_on,
    ensures
        calm_steps(m, SETTLE_LIMIT as nat).physics_on,
        calm_steps(m, (SETTLE_LIMIT + 1) as nat) == (Motion { physics_on: false, settle_frames: 0, ..m }),
{
    lemma_calm_count(m, SETTLE_LIMIT as nat);
}

/// An animated move that arrives leaves the forces on exactly when it was
/// started to resume them, and ends the move.
pub proof fn law_transition_lands(m: Motion, resume: bool, nodes: nat)
    requires
        nodes > 0,
    ensures
        ({
            let started = Motion { transition: Some(resume), physics_on: true, ..m };
            let (after, kind) = step_start(started, nodes, true);
            after.physics_on == resume && after.transition is None && kind == StepKind::Arrived { resume }
        }),
{
}

/// The pseudo-random bits behind a node's jitter: a step of the 64-bit
/// linear congruential generator from `seed`, top 53 bits.
pub open spec fn lcg_value(seed: u64) -> int {
    ((seed * 6364136223846793005 + 1442695040888963407) % 0x1_0000_0000_0000_0000) / 2048
}

/// The generator's step from `seed`, keeping the top 53 bits (to be scaled
/// into [0, 1) by dividing by 2^53).
pub fn lcg_bits(seed: u64) -> (r: u64)
    ensures
        r == lcg_value(seed),
        r < 0x20_0000_0000_0000,
{
    let x = seed.wrapping_mul(6364136223846793005).wrapping_add(1442695040888963407);
    proof {
        assert(x == (seed * 6364136223846793005 + 1442695040888963407) % 0x1_0000_0000_0000_0000) by (nonlinear_arith)
            requires
                x == ((seed * 6364136223846793005) % 0x1_0000_0000_0000_0000 + 1442695040888963407)
                    % 0x1_0000_0000_0000_0000,
        {
        }
        assert(x >> 11u64 == x / 2048) by (bit_vector);
        assert(x / 2048 < 0x20_0000_0000_0000) by (bit_vector);
    }
    x >> 11
}

/// The seed of jitter `k` for node `i`.
pub fn jitter_seed(i: u64, k: u64) -> (r: u64)
    ensures
        r == ((i * 6364136223846793005) % 0x1_0000_0000_0000_0000 + k) % 0x1_0000_0000_0000_0000,
{
    i.wrapping_mul(6364136223846793005).wrapping_add(k)
}

} // verus!
