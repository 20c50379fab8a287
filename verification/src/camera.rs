//! How held keys move the free-fly camera.
//!
//! Each key that the camera reacts to pushes one axis at a fixed rate per
//! second. The caller scales every contribution by the time the last frame
//! took and adds it to the axis, in the order given here.

use crate::keys::Key;
use vstd::prelude::*;

verus! {

/// An axis of the camera: three of position, two of orientation.
#[derive(Clone, Copy, Debug, PartialEq, Eq, Structural)]
pub enum Axis {
    X,
    Y,
    Z,
    Yaw,
    Pitch,
}

/// The push of one held key: units per second for a position axis,
/// degrees per second for yaw and pitch.
#[derive(Clone, Copy, Debug, PartialEq, Eq, Structural)]
pub struct Contribution {
    pub axis: Axis,
    pub rate: i32,
}

/// Speed along x and z, in units per second.
pub const MOVE_RATE: i32 = 15;

/// Speed along y, in units per second.
pub const LIFT_RATE: i32 = 10;

/// Speed of yaw and pitch, in degrees per second.
pub const TURN_RATE: i32 = 30;

/// A push along `axis` at `rate` per second.
pub open spec fn push_along(axis: Axis, rate: int) -> Contribution {
    Contribution { axis, rate: rate as i32 }
}

/// The push of `key`, or `None` for a key that does not move the camera.
pub open spec fn key_contribution(key: Key) -> Option<Contribution> {
    match key {
        Key::W => Some(push_along(Axis::Z, -MOVE_RATE)),
        Key::S => Some(push_along(Axis::Z, MOVE_RATE as int)),
        Key::A => Some(push_along(Axis::X, -MOVE_RATE)),
        Key::D => Some(push_along(Axis::X, MOVE_RATE as int)),
        Key::Space => Some(push_along(Axis::Y, LIFT_RATE as int)),
        Key::LShift => Some(push_along(Axis::Y, -LIFT_RATE)),
        Key::Up => Some(push_along(Axis::Pitch, TURN_RATE as int)),
        Key::Down => Some(push_along(Axis::Pitch, -TURN_RATE)),
        Key::Left => Some(push_along(Axis::Yaw, -TURN_RATE)),
        Key::Right => Some(push_along(Axis::Yaw, TURN_RATE as int)),
        _ => None,
    }
}

/// The pushes of the keys in `keys`, in the order of the keys.
pub open spec fn contributions(keys: Seq<Key>) -> Seq<Contribution>
    decreases keys.len(),
{
    if keys.len() == 0 {
        Seq::empty()
    } else {
        match key_contribution(keys.last()) {
            Some(c) => contributions(keys.drop_last()).push(c),
            None => contributions(keys.drop_last()),
        }
    }
}

/// The push of one key.
pub fn contribution_of(key: Key) -> (r: Option<Contribution>)
    ensures
        r == key_contribution(key),
{
    match key {
        Key::W => Some(Contribution { axis: Axis::Z, rate: -MOVE_RATE }),
        Key::S => Some(Contribution { axis: Axis::Z, rate: MOVE_RATE }),
        Key::A => Some(Contribution { axis: Axis::X, rate: -MOVE_RATE }),
        Key::D => Some(Contribution { axis: Axis::X, rate: MOVE_RATE }),
        Key::Space => Some(Contribution { axis: Axis::Y, rate: LIFT_RATE }),
        Key::LShift => Some(Contribution { axis: Axis::Y, rate: -LIFT_RATE }),
        Key::Up => Some(Contribution { axis: Axis::Pitch, rate: TURN_RATE }),
        Key::Down => Some(Contribution { axis: Axis::Pitch, rate: -TURN_RATE }),
        Key::Left => Some(Contribution { axis: Axis::Yaw, rate: -TURN_RATE }),
        Key::Right => Some(Contribution { axis: Axis::Yaw, rate: TURN_RATE }),
        _ => None,
    }
}

/// The pushes of the keys that are held during a frame, in the order of
/// `keys`; keys that do not move the camera are passed over.
pub fn camera_contributions(keys: &Vec<Key>) -> (out: Vec<Contribution>)
    ensures
        out@ == contributions(keys@),
{
    let mut out: Vec<Contribution> = Vec::new();
    let mut i: usize = 0;
    assert(keys@.take(0) =~= Seq::<Key>::empty());
    while i < keys.len()
        invariant
            i <= keys@.len(),
            out@ == contributions(keys@.take(i as int)),
        decreases keys.len() - i,
    {
        proof {
            let next = keys@.take(i + 1);
            assert(next.drop_last() =~= keys@.take(i as int));
            assert(next.last() == keys@[i as int]);
        }
        match contribution_of(keys[i]) {
            Some(c) => {
                out.push(c);
            },
            None => {},
        }
        i += 1;
    }
    proof {
        keys@.lemma_take_len();
    }
    out
}

} // verus!
