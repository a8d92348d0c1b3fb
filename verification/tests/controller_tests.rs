use swirly_world::controller::{Input, InputEffect, Key, MouseButton, PlayerController, PlayerMovement};
use swirly_world::systems::{move_command, Grounded, MoveCommand, Stride, GROUND_TIME};

fn key(key: Key, pressed: bool) -> Input {
    Input::Key { key, pressed }
}

#[test]
fn movement_keys_set_flags() {
    let mut m = PlayerMovement::default();
    assert_eq!(m.apply_input(&key(Key::A, true)), InputEffect::Consumed);
    assert!(m.left);
    assert_eq!(m.apply_input(&key(Key::D, true)), InputEffect::Consumed);
    assert!(m.right);
    assert_eq!(m.apply_input(&key(Key::W, true)), InputEffect::Consumed);
    assert!(m.jumping);
    assert_eq!(m.apply_input(&key(Key::A, false)), InputEffect::Consumed);
    assert_eq!(m, PlayerMovement { left: false, right: true, jumping: true });
}

#[test]
fn other_inputs_are_ignored_or_fire() {
    let mut m = PlayerMovement::default();
    assert_eq!(m.apply_input(&key(Key::Other, true)), InputEffect::Ignored);
    assert_eq!(
        m.apply_input(&Input::Mouse { button: MouseButton::Left, pressed: true }),
        InputEffect::SpawnProjectile
    );
    assert_eq!(
        m.apply_input(&Input::Mouse { button: MouseButton::Left, pressed: false }),
        InputEffect::Ignored
    );
    assert_eq!(
        m.apply_input(&Input::Mouse { button: MouseButton::Right, pressed: true }),
        InputEffect::Ignored
    );
    assert_eq!(m, PlayerMovement::default());
}

#[test]
fn handled_and_expired_inputs_leave_the_queue() {
    let mut c = PlayerController::new();
    c.inputs.push((key(Key::A, true), 3));
    c.inputs.push((key(Key::Other, true), 0));
    c.inputs.push((key(Key::D, true), 5));
    c.handle_inputs(&vec![true, false, false]);
    assert_eq!(c.inputs, vec![(key(Key::D, true), 4)]);
}

#[test]
fn an_unhandled_input_waits_its_time_plus_one_rounds() {
    let mut c = PlayerController::new();
    c.inputs.push((key(Key::Other, true), 2));
    let mut rounds = 0;
    while !c.inputs.is_empty() {
        let handled = vec![false; c.inputs.len()];
        c.handle_inputs(&handled);
        rounds += 1;
    }
    assert_eq!(rounds, 3);
}

#[test]
fn right_wins_over_left() {
    let both = PlayerMovement { left: true, right: true, jumping: false };
    assert_eq!(move_command(&both, &Grounded(0)), MoveCommand { stride: Stride::Right, jump: false });
    let left = PlayerMovement { left: true, right: false, jumping: false };
    assert_eq!(move_command(&left, &Grounded(0)).stride, Stride::Left);
    assert_eq!(move_command(&PlayerMovement::default(), &Grounded(3)).stride, Stride::Still);
}

#[test]
fn jump_needs_ground_time() {
    let jumping = PlayerMovement { left: false, right: false, jumping: true };
    assert!(move_command(&jumping, &Grounded(1)).jump);
    assert!(!move_command(&jumping, &Grounded(0)).jump);
}

#[test]
fn ground_timer_counts_down_to_zero() {
    let mut g = Grounded(0);
    g.land();
    assert_eq!(g, Grounded(GROUND_TIME));
    for _ in 0..GROUND_TIME {
        g.tick();
    }
    assert_eq!(g.0, 0);
    g.tick();
    assert_eq!(g.0, 0);
}
