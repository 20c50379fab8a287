use gloom_scene::camera::camera_contributions;
use gloom_scene::camera::contribution_of;
use gloom_scene::camera::Axis;
use gloom_scene::camera::Contribution;
use gloom_scene::camera::{LIFT_RATE, MOVE_RATE, TURN_RATE};
use gloom_scene::events::control_flow;
use gloom_scene::events::ControlFlow;
use gloom_scene::events::InputEvent;
use gloom_scene::events::RenderHealth;
use gloom_scene::events::RenderOutcome;
use gloom_scene::keys::Key;
use gloom_scene::keys::KeyState;
use gloom_scene::keys::PressedKeys;
use gloom_scene::mouse::MouseDelta;
use gloom_scene::window::WindowSizeRequest;
use gloom_scene::window::{INITIAL_SCREEN_H, INITIAL_SCREEN_W};

fn push(axis: Axis, rate: i32) -> Contribution {
    Contribution { axis, rate }
}

// ---- keys ----

#[test]
fn no_key_is_down_at_first() {
    let keys = PressedKeys::new();
    assert_eq!(keys.len(), 0);
    assert!(!keys.contains(Key::W));
    assert_eq!(keys.snapshot(), Vec::<Key>::new());
}

#[test]
fn repeated_key_down_lists_the_key_once() {
    let mut keys = PressedKeys::new();
    keys.press(Key::W);
    for _ in 0..25 {
        keys.press(Key::W);
    }
    assert_eq!(keys.snapshot(), vec![Key::W]);
    assert_eq!(keys.len(), 1);
    keys.release(Key::W);
    assert_eq!(keys.len(), 0);
    assert!(!keys.contains(Key::W));
    keys.release(Key::W);
    assert_eq!(keys.snapshot(), Vec::<Key>::new());
}

#[test]
fn key_up_for_a_key_that_is_not_down_changes_nothing() {
    let mut keys = PressedKeys::new();
    keys.release(Key::Escape);
    assert_eq!(keys.len(), 0);
    keys.press(Key::A);
    keys.press(Key::D);
    keys.release(Key::S);
    assert_eq!(keys.snapshot(), vec![Key::A, Key::D]);
}

#[test]
fn keys_stay_in_the_order_in_which_they_went_down() {
    let mut keys = PressedKeys::new();
    for k in [Key::Up, Key::W, Key::Other(77), Key::Space, Key::W, Key::Up] {
        keys.press(k);
    }
    assert_eq!(keys.snapshot(), vec![Key::Up, Key::W, Key::Other(77), Key::Space]);
    keys.release(Key::W);
    assert_eq!(keys.snapshot(), vec![Key::Up, Key::Other(77), Key::Space]);
    keys.release(Key::Up);
    assert_eq!(keys.snapshot(), vec![Key::Other(77), Key::Space]);
    keys.release(Key::Space);
    assert_eq!(keys.snapshot(), vec![Key::Other(77)]);
    keys.press(Key::Up);
    assert_eq!(keys.snapshot(), vec![Key::Other(77), Key::Up]);
}

#[test]
fn other_keys_are_told_apart_by_their_code() {
    let mut keys = PressedKeys::new();
    keys.press(Key::Other(1));
    keys.press(Key::Other(2));
    keys.press(Key::Other(1));
    assert_eq!(keys.len(), 2);
    assert!(keys.contains(Key::Other(2)));
    assert!(!keys.contains(Key::Other(3)));
    keys.release(Key::Other(1));
    assert_eq!(keys.snapshot(), vec![Key::Other(2)]);
}

#[test]
fn position_finds_the_key() {
    let mut keys = PressedKeys::new();
    keys.press(Key::Left);
    keys.press(Key::Right);
    keys.press(Key::Q);
    assert_eq!(keys.position(Key::Left), Some(0));
    assert_eq!(keys.position(Key::Q), Some(2));
    assert_eq!(keys.position(Key::W), None);
}

#[test]
fn apply_follows_the_state_of_the_event() {
    let mut keys = PressedKeys::new();
    keys.apply(Key::S, KeyState::Pressed);
    keys.apply(Key::S, KeyState::Pressed);
    keys.apply(Key::D, KeyState::Pressed);
    assert_eq!(keys.snapshot(), vec![Key::S, Key::D]);
    keys.apply(Key::S, KeyState::Released);
    assert_eq!(keys.snapshot(), vec![Key::D]);
    keys.apply(Key::S, KeyState::Released);
    assert_eq!(keys.snapshot(), vec![Key::D]);
}

#[test]
fn a_snapshot_is_not_touched_by_later_events() {
    let mut keys = PressedKeys::new();
    keys.press(Key::W);
    let frame = keys.snapshot();
    keys.release(Key::W);
    keys.press(Key::S);
    assert_eq!(frame, vec![Key::W]);
    assert_eq!(keys.snapshot(), vec![Key::S]);
}

// ---- mouse ----

#[test]
fn mouse_motion_sums_until_it_is_drained() {
    let mut delta = MouseDelta::new(0.0f32);
    delta.accumulate(1.0, 2.0, |a: f32, b: f32| a + b);
    delta.accumulate(3.0, -1.0, |a: f32, b: f32| a + b);
    assert_eq!(delta.peek(), (4.0, 1.0));
    assert_eq!(delta.drain(), (4.0, 1.0));
    assert_eq!(delta.peek(), (0.0, 0.0));
}

#[test]
fn a_drained_accumulator_hands_out_nothing_twice() {
    let mut delta = MouseDelta::new(0i64);
    delta.accumulate(7, -7, |a: i64, b: i64| a + b);
    assert_eq!(delta.drain(), (7, -7));
    assert_eq!(delta.drain(), (0, 0));
    delta.accumulate(2, 3, |a: i64, b: i64| a + b);
    assert_eq!(delta.drain(), (2, 3));
}

#[test]
fn a_new_accumulator_reads_zero() {
    let mut delta = MouseDelta::new(0.0f64);
    assert_eq!(delta.peek(), (0.0, 0.0));
    assert_eq!(delta.drain(), (0.0, 0.0));
}

#[test]
fn peek_leaves_the_motion_in_place() {
    let mut delta = MouseDelta::new(0i32);
    delta.accumulate(5, 6, |a: i32, b: i32| a + b);
    assert_eq!(delta.peek(), (5, 6));
    assert_eq!(delta.peek(), (5, 6));
    delta.accumulate(1, 1, |a: i32, b: i32| a + b);
    assert_eq!(delta.drain(), (6, 7));
}

#[test]
fn accumulate_hands_the_pending_value_first() {
    let mut delta = MouseDelta::new(1i32);
    delta.accumulate(10, 20, |pending: i32, new: i32| pending * 100 + new);
    assert_eq!(delta.peek(), (110, 120));
    delta.accumulate(3, 4, |pending: i32, new: i32| pending * 100 + new);
    assert_eq!(delta.drain(), (11_003, 12_004));
    assert_eq!(delta.peek(), (1, 1));
}

// ---- window size ----

#[test]
fn the_window_starts_at_800_by_600() {
    assert_eq!((INITIAL_SCREEN_W, INITIAL_SCREEN_H), (800, 600));
    let mut request = WindowSizeRequest::new(INITIAL_SCREEN_W, INITIAL_SCREEN_H);
    assert_eq!(request, WindowSizeRequest { width: 800, height: 600, dirty: false });
    assert_eq!(request.take(), None);
}

#[test]
fn rapid_resizes_coalesce_to_the_last() {
    let mut request = WindowSizeRequest::new(INITIAL_SCREEN_W, INITIAL_SCREEN_H);
    request.request(800, 600);
    request.request(640, 480);
    request.request(1024, 768);
    assert_eq!(request.take(), Some((1024, 768)));
    assert_eq!(request.take(), None);
    assert_eq!(request, WindowSizeRequest { width: 1024, height: 768, dirty: false });
}

#[test]
fn a_resize_to_the_same_size_is_still_applied() {
    let mut request = WindowSizeRequest::new(800, 600);
    request.request(800, 600);
    assert!(request.dirty);
    assert_eq!(request.take(), Some((800, 600)));
    assert!(!request.dirty);
}

#[test]
fn each_frame_applies_the_resize_that_came_before_it() {
    let mut request = WindowSizeRequest::new(800, 600);
    request.request(100, 200);
    assert_eq!(request.take(), Some((100, 200)));
    request.request(300, 400);
    request.request(0, 0);
    assert_eq!(request.take(), Some((0, 0)));
    assert_eq!(request.take(), None);
    assert_eq!((request.width, request.height), (0, 0));
}

// ---- camera ----

#[test]
fn rates_of_the_camera() {
    assert_eq!((MOVE_RATE, LIFT_RATE, TURN_RATE), (15, 10, 30));
}

#[test]
fn every_camera_key_pushes_its_axis() {
    assert_eq!(contribution_of(Key::W), Some(push(Axis::Z, -15)));
    assert_eq!(contribution_of(Key::S), Some(push(Axis::Z, 15)));
    assert_eq!(contribution_of(Key::A), Some(push(Axis::X, -15)));
    assert_eq!(contribution_of(Key::D), Some(push(Axis::X, 15)));
    assert_eq!(contribution_of(Key::Space), Some(push(Axis::Y, 10)));
    assert_eq!(contribution_of(Key::LShift), Some(push(Axis::Y, -10)));
    assert_eq!(contribution_of(Key::Up), Some(push(Axis::Pitch, 30)));
    assert_eq!(contribution_of(Key::Down), Some(push(Axis::Pitch, -30)));
    assert_eq!(contribution_of(Key::Left), Some(push(Axis::Yaw, -30)));
    assert_eq!(contribution_of(Key::Right), Some(push(Axis::Yaw, 30)));
}

#[test]
fn other_keys_do_not_move_the_camera() {
    assert_eq!(contribution_of(Key::Escape), None);
    assert_eq!(contribution_of(Key::Q), None);
    assert_eq!(contribution_of(Key::Other(0)), None);
    assert_eq!(contribution_of(Key::Other(u32::MAX)), None);
}

#[test]
fn contributions_follow_the_order_of_the_keys() {
    let keys = vec![Key::Right, Key::Q, Key::W, Key::Other(3), Key::LShift, Key::S];
    assert_eq!(
        camera_contributions(&keys),
        vec![
            push(Axis::Yaw, 30),
            push(Axis::Z, -15),
            push(Axis::Y, -10),
            push(Axis::Z, 15),
        ]
    );
    assert_eq!(camera_contributions(&Vec::new()), Vec::new());
    assert_eq!(camera_contributions(&vec![Key::Escape]), Vec::new());
}

#[test]
fn held_keys_move_the_camera_by_rate_times_frame_time() {
    let mut keys = PressedKeys::new();
    keys.press(Key::W);
    keys.press(Key::Space);
    keys.press(Key::Left);
    keys.press(Key::W);
    let delta_time = 0.5f32;
    let (mut y, mut z, mut yaw) = (0.0f32, 5.0f32, 0.0f32);
    for c in camera_contributions(&keys.snapshot()) {
        let step = c.rate as f32 * delta_time;
        match c.axis {
            Axis::Y => y += step,
            Axis::Z => z += step,
            Axis::Yaw => yaw += step,
            _ => panic!("no key for this axis is down"),
        }
    }
    assert_eq!((y, z, yaw), (5.0, -2.5, -15.0));
}

// ---- events ----

#[test]
fn ordinary_events_keep_the_loop_waiting() {
    let events: [InputEvent<f32>; 6] = [
        InputEvent::Resized { width: 640, height: 480 },
        InputEvent::KeyboardInput { key: Key::W, state: KeyState::Pressed },
        InputEvent::KeyboardInput { key: Key::Other(1), state: KeyState::Released },
        InputEvent::KeyboardInput { key: Key::Space, state: KeyState::Released },
        InputEvent::MouseMotion { dx: 1.5, dy: -2.0 },
        InputEvent::Other,
    ];
    for e in &events {
        assert_eq!(control_flow(true, e), ControlFlow::Wait);
    }
}

#[test]
fn close_and_exit_keys_end_the_program() {
    let events: [InputEvent<f32>; 5] = [
        InputEvent::CloseRequested,
        InputEvent::KeyboardInput { key: Key::Escape, state: KeyState::Pressed },
        InputEvent::KeyboardInput { key: Key::Escape, state: KeyState::Released },
        InputEvent::KeyboardInput { key: Key::Q, state: KeyState::Pressed },
        InputEvent::KeyboardInput { key: Key::Q, state: KeyState::Released },
    ];
    for e in &events {
        assert_eq!(control_flow(true, e), ControlFlow::Exit);
    }
}

#[test]
fn a_dead_render_thread_ends_the_program_on_any_event() {
    let events: [InputEvent<i32>; 4] = [
        InputEvent::Other,
        InputEvent::MouseMotion { dx: 0, dy: 0 },
        InputEvent::Resized { width: 1, height: 1 },
        InputEvent::KeyboardInput { key: Key::W, state: KeyState::Pressed },
    ];
    for e in &events {
        assert_eq!(control_flow(false, e), ControlFlow::Exit);
    }
}

#[test]
fn a_fault_clears_the_health_flag_for_good() {
    let mut health = RenderHealth::new();
    assert!(health.alive);
    health.record(RenderOutcome::Finished);
    assert!(health.alive);
    health.record(RenderOutcome::Fault);
    assert!(!health.alive);
    health.record(RenderOutcome::Finished);
    assert!(!health.alive);
}
