//! What the event thread decides for each event of the window system, and
//! the health flag through which a failed render thread stops the program.

use crate::keys::Key;
use crate::keys::KeyState;
use vstd::prelude::*;

verus! {

/// An event delivered by the window system. `T` is the scalar of raw mouse
/// motion.
pub enum InputEvent<T> {
    /// The window has a new size.
    Resized { width: u32, height: u32 },
    /// The user asked to close the window.
    CloseRequested,
    /// A key went down or came up.
    KeyboardInput { key: Key, state: KeyState },
    /// The mouse moved by a raw delta.
    MouseMotion { dx: T, dy: T },
    /// Anything else.
    Other,
}

/// What the event loop does once an event is handled.
#[derive(Clone, Copy, Debug, PartialEq, Eq, Structural)]
pub enum ControlFlow {
    /// Sleep until the next event.
    Wait,
    /// Leave the event loop and end the program.
    Exit,
}

/// The keys that end the program.
pub open spec fn is_exit_key(key: Key) -> bool {
    key == Key::Escape || key == Key::Q
}

/// Whether the program ends after `event`: when the render thread is no
/// longer alive, when the window is to be closed, or when an exit key is
/// reported, going down or coming up.
pub open spec fn ends_program<T>(render_alive: bool, event: InputEvent<T>) -> bool {
    ||| !render_alive
    ||| event is CloseRequested
    ||| event matches InputEvent::KeyboardInput { key, .. } && is_exit_key(key)
}

/// Decides how the event loop goes on after `event`.
pub fn control_flow<T>(render_alive: bool, event: &InputEvent<T>) -> (flow: ControlFlow)
    ensures
        flow == if ends_program(render_alive, *event) {
            ControlFlow::Exit
        } else {
            ControlFlow::Wait
        },
{
    if !render_alive {
        return ControlFlow::Exit;
    }
    match event {
        InputEvent::CloseRequested => ControlFlow::Exit,
        InputEvent::KeyboardInput { key, .. } => match key {
            Key::Escape => ControlFlow::Exit,
            Key::Q => ControlFlow::Exit,
            _ => ControlFlow::Wait,
        },
        _ => ControlFlow::Wait,
    }
}

/// How the render thread came to an end.
#[derive(Clone, Copy, Debug, PartialEq, Eq, Structural)]
pub enum RenderOutcome {
    /// The render loop returned.
    Finished,
    /// The render loop failed, or a lock it shares was found poisoned.
    Fault,
}

/// The health flag of the render thread, set by its supervisor and read by
/// the event loop once per cycle.
#[derive(Clone, Copy, Debug, PartialEq, Eq, Structural)]
pub struct RenderHealth {
    pub alive: bool,
}

impl RenderHealth {
    /// The flag after the supervisor saw `outcome`: a fault clears it for
    /// good, a normal return leaves it as it is.
    pub open spec fn after(self, outcome: RenderOutcome) -> RenderHealth {
        RenderHealth { alive: self.alive && outcome == RenderOutcome::Finished }
    }

    /// The flag of a render thread that has just been started.
    pub fn new() -> (health: Self)
        ensures
            health.alive,
    {
        RenderHealth { alive: true }
    }

    /// Records how the render thread ended.
    pub fn record(&mut self, outcome: RenderOutcome)
        ensures
            *final(self) == old(self).after(outcome),
    {
        match outcome {
            RenderOutcome::Finished => {},
            RenderOutcome::Fault => {
                self.alive = false;
            },
        }
    }
}

} // verus!
