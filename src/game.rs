use vstd::prelude::*;

verus! {

/// Most projectiles alive at once; a fire request beyond it is dropped.
pub const MAX_PROJECTILES: usize = 100;

/// Projectile speed at start, in pixels per tick.
pub const INITIAL_PROJECTILE_SPEED: u32 = 12;

/// Slowest projectile speed the player can select.
pub const MIN_PROJECTILE_SPEED: u32 = 2;

/// Fastest projectile speed the player can select.
pub const MAX_PROJECTILE_SPEED: u32 = 50;

/// A key press, as far as the game cares.
#[derive(Clone, Copy, Debug, PartialEq, Eq, Structural)]
pub enum KeyEvent {
    RotateLeft,
    RotateRight,
    ThrustForward,
    ThrustBackward,
    Fire,
    SpeedDown,
    SpeedUp,
    Exit,
    Other,
}

/// What the player asked for during one poll: rotation and thrust in
/// {-1, 0, 1}, a fire request, a projectile speed step in {-1, 0, 1} and an
/// exit request.
#[derive(Clone, Copy, Debug, PartialEq, Eq, Structural)]
pub struct Intent {
    pub rot: i8,
    pub thr: i8,
    pub fire: bool,
    pub speed_adj: i8,
    pub exit: bool,
}

/// The intent after one more key: a later direction key overrides an earlier
/// one on its axis, fire and exit requests accumulate, other keys are ignored.
pub open spec fn apply_key(i: Intent, k: KeyEvent) -> Intent {
    match k {
        KeyEvent::RotateLeft => Intent { rot: -1i8, ..i },
        KeyEvent::RotateRight => Intent { rot: 1i8, ..i },
        KeyEvent::ThrustForward => Intent { thr: 1i8, ..i },
        KeyEvent::ThrustBackward => Intent { thr: -1i8, ..i },
        KeyEvent::Fire => Intent { fire: true, ..i },
        KeyEvent::SpeedDown => Intent { speed_adj: -1i8, ..i },
        KeyEvent::SpeedUp => Intent { speed_adj: 1i8, ..i },
        KeyEvent::Exit => Intent { exit: true, ..i },
        KeyEvent::Other => i,
    }
}

/// Projectile speed after a step of `adj`, kept within the selectable range.
pub open spec fn adjusted_speed(speed: u32, adj: i8) -> int {
    let v = speed + adj;
    if v < MIN_PROJECTILE_SPEED {
        MIN_PROJECTILE_SPEED as int
    } else if v > MAX_PROJECTILE_SPEED {
        MAX_PROJECTILE_SPEED as int
    } else {
        v
    }
}

impl Intent {
    /// No request at all.
    pub fn none() -> (r: Intent)
        ensures
            r == (Intent { rot: 0, thr: 0, fire: false, speed_adj: 0, exit: false }),
    {
        Intent { rot: 0, thr: 0, fire: false, speed_adj: 0, exit: false }
    }

    /// Folds one more key press into the intent.
    pub fn with_key(self, k: KeyEvent) -> (r: Intent)
        ensures
            r == apply_key(self, k),
    {
        match k {
            KeyEvent::RotateLeft => Intent { rot: -1, ..self },
            KeyEvent::RotateRight => Intent { rot: 1, ..self },
            KeyEvent::ThrustForward => Intent { thr: 1, ..self },
            KeyEvent::ThrustBackward => Intent { thr: -1, ..self },
            KeyEvent::Fire => Intent { fire: true, ..self },
            KeyEvent::SpeedDown => Intent { speed_adj: -1, ..self },
            KeyEvent::SpeedUp => Intent { speed_adj: 1, ..self },
            KeyEvent::Exit => Intent { exit: true, ..self },
            KeyEvent::Other => self,
        }
    }
}

/// What the frame loop does this tick.
#[derive(Clone, Copy, Debug, PartialEq, Eq, Structural)]
pub struct TickPlan {
    /// Leave the loop; nothing else happens this tick.
    pub exit: bool,
    /// Rotation and thrust handed to the ship.
    pub rot: i8,
    pub thr: i8,
    /// Spawn a projectile at the ship's nose.
    pub fire: bool,
    /// Speed of that projectile.
    pub fire_speed: u32,
}

/// Decisions the frame loop carries from tick to tick: the selected
/// projectile speed and the frame counter that gates input polling.
pub struct GameControl {
    projectile_speed: u32,
    frame: u64,
}

impl GameControl {
    pub closed spec fn projectile_speed_spec(&self) -> u32 {
        self.projectile_speed
    }

    pub closed spec fn frame_spec(&self) -> u64 {
        self.frame
    }

    pub open spec fn wf(&self) -> bool {
        MIN_PROJECTILE_SPEED <= self.projectile_speed_spec() <= MAX_PROJECTILE_SPEED
    }

    /// Initial state: default projectile speed, frame zero.
    pub fn new() -> (r: Self)
        ensures
            r.wf(),
            r.projectile_speed_spec() == INITIAL_PROJECTILE_SPEED,
            r.frame_spec() == 0,
    {
        GameControl { projectile_speed: INITIAL_PROJECTILE_SPEED, frame: 0 }
    }

    pub fn projectile_speed(&self) -> (r: u32)
        ensures
            r == self.projectile_speed_spec(),
    {
        self.projectile_speed
    }

    /// Input is polled on even frames only; odd frames run on without new intent.
    pub fn poll_input(&self) -> (r: bool)
        ensures
            r == (self.frame_spec() % 2 == 0),
    {
        self.frame % 2 == 0
    }

    /// Plans a tick from the player's intent and the number of live
    /// projectiles: exit if asked; otherwise pass rotation and thrust on, fire
    /// at the current speed only while under the projectile cap, then apply the
    /// speed step and advance the frame counter (wrapping).
    pub fn plan_tick(&mut self, intent: Intent, live_projectiles: usize) -> (r: TickPlan)
        requires
            old(self).wf(),
        ensures
            final(self).wf(),
            r.exit == intent.exit,
            intent.exit ==> *final(self) == *old(self) && !r.fire,
            !intent.exit ==> {
                &&& r.rot == intent.rot
                &&& r.thr == intent.thr
                &&& r.fire == (intent.fire && live_projectiles < MAX_PROJECTILES)
                &&& r.fire_speed == old(self).projectile_speed_spec()
                &&& final(self).projectile_speed_spec() == adjusted_speed(
                    old(self).projectile_speed_spec(),
                    intent.speed_adj,
                )
                &&& final(self).frame_spec() == vstd::wrapping::u64_specs::wrapping_add(
                    old(self).frame_spec(),
                    1,
                )
            },
    {
        if intent.exit {
            return TickPlan { exit: true, rot: 0, thr: 0, fire: false, fire_speed: self.projectile_speed };
        }
        let fire = intent.fire && live_projectiles < MAX_PROJECTILES;
        let fire_speed = self.projectile_speed;
        let v: i64 = self.projectile_speed as i64 + intent.speed_adj as i64;
        self.projectile_speed = if v < MIN_PROJECTILE_SPEED as i64 {
            MIN_PROJECTILE_SPEED
        } else if v > MAX_PROJECTILE_SPEED as i64 {
            MAX_PROJECTILE_SPEED
        } else {
            v as u32
        };
        self.frame = self.frame.wrapping_add(1);
        TickPlan { exit: false, rot: intent.rot, thr: intent.thr, fire, fire_speed }
    }
}

} // verus!
