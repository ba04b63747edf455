//! Which way the camera is being moved by the keyboard.

use vstd::prelude::*;

verus! {

/// Keys that steer the camera.
#[derive(Debug, Clone, Copy, PartialEq, Eq, Structural)]
pub enum MoveKey {
    W,
    A,
    S,
    D,
    Other,
}

/// Slot of a key in the held directions: W up, A left, S down, D right.
pub open spec fn key_slot(key: MoveKey) -> Option<int> {
    match key {
        MoveKey::W => Some(0),
        MoveKey::A => Some(1),
        MoveKey::S => Some(2),
        MoveKey::D => Some(3),
        MoveKey::Other => None,
    }
}

/// The held movement directions: up, left, down, right.
#[derive(Debug, Clone, Copy)]
pub struct CameraDirections {
    pub directions: [bool; 4],
}

/// The held directions after `key` goes to `held`.
pub open spec fn directions_after(d: [bool; 4], key: MoveKey, held: bool) -> Seq<bool> {
    match key_slot(key) {
        Some(i) => d@.update(i, held),
        None => d@,
    }
}

/// The step the held directions give: `(dx, dy)`, each in `-1..=1`, with
/// opposite directions cancelling.
pub open spec fn spec_movement(d: Seq<bool>) -> (int, int) {
    (
        (if d[3] { 1int } else { 0 }) - (if d[1] { 1int } else { 0 }),
        (if d[2] { 1int } else { 0 }) - (if d[0] { 1int } else { 0 }),
    )
}

impl CameraDirections {
    const UP: usize = 0;
    const LEFT: usize = 1;
    const DOWN: usize = 2;
    const RIGHT: usize = 3;

    /// No direction held.
    pub fn new() -> (c: Self)
        ensures
            c.directions@ == seq![false, false, false, false],
    {
        CameraDirections { directions: [false, false, false, false] }
    }

    fn slot(key: MoveKey) -> (r: Option<usize>)
        ensures
            match key_slot(key) {
                Some(i) => r == Some(i as usize),
                None => r is None,
            },
    {
        match key {
            MoveKey::W => Some(Self::UP),
            MoveKey::A => Some(Self::LEFT),
            MoveKey::S => Some(Self::DOWN),
            MoveKey::D => Some(Self::RIGHT),
            MoveKey::Other => None,
        }
    }

    /// Starts holding the direction of `key`.
    pub fn key_down_event(&mut self, key: MoveKey)
        ensures
            final(self).directions@ == directions_after(old(self).directions, key, true),
    {
        match Self::slot(key) {
            Some(i) => {
                self.directions.set(i, true);
            },
            None => {},
        }
    }

    /// Stops holding the direction of `key`.
    pub fn key_up_event(&mut self, key: MoveKey)
        ensures
            final(self).directions@ == directions_after(old(self).directions, key, false),
    {
        match Self::slot(key) {
            Some(i) => {
                self.directions.set(i, false);
            },
            None => {},
        }
    }

    /// The step the held directions give, before it is scaled to the
    /// camera's speed.
    pub fn movement(&self) -> (r: (i8, i8))
        ensures
            (r.0 as int, r.1 as int) == spec_movement(self.directions@),
    {
        let mut dx: i8 = 0;
        let mut dy: i8 = 0;
        if self.directions[Self::UP] {
            dy = dy - 1;
        }
        if self.directions[Self::LEFT] {
            dx = dx - 1;
        }
        if self.directions[Self::DOWN] {
            dy = dy + 1;
        }
        if self.directions[Self::RIGHT] {
            dx = dx + 1;
        }
        (dx, dy)
    }
}

/// Releasing a key undoes pressing it when its direction was not held
/// before.
pub proof fn law_release_undoes_press(d: [bool; 4], key: MoveKey, pressed: Seq<bool>, released: Seq<bool>)
    requires
        key_slot(key) matches Some(i) ==> !d@[i],
        pressed == directions_after(d, key, true),
        released == match key_slot(key) {
            Some(i) => pressed.update(i, false),
            None => pressed,
        },
    ensures
        released == d@,
{
    match key_slot(key) {
        Some(i) => {
            assert(released =~= d@);
        },
        None => {},
    }
}

/// Holding two opposite directions gives no movement along their axis.
pub proof fn law_opposites_cancel(d: Seq<bool>)
    requires
        d.len() == 4,
    ensures
        d[0] && d[2] ==> spec_movement(d).1 == 0,
        d[1] && d[3] ==> spec_movement(d).0 == 0,
{
}

} // verus!
