use fivee_core::pos::GridPos;
use fivee_core::round::{Round, RoundCommand, Variant};
use fivee_core::token::EntityId;

#[test]
fn constructors_carry_their_durations() {
    let nop = RoundCommand::nop();
    assert_eq!(nop.timer_ms, 500);
    assert_eq!(nop.timer_elapsed_ms, 0);
    assert!(matches!(nop.variant, Variant::Nop));

    let mv = RoundCommand::move_to(EntityId(1), GridPos::new(2, 3));
    assert_eq!(mv.timer_ms, 200);
    assert!(
        matches!(mv.variant, Variant::MoveTo { who, to } if who == EntityId(1) && to == GridPos::new(2, 3))
    );

    let far = RoundCommand::move_far(EntityId(1), GridPos::new(4, 4));
    assert_eq!(far.timer_ms, 0);
    assert!(matches!(far.variant, Variant::MoveFar { .. }));

    let et = RoundCommand::end_turn(EntityId(9));
    assert_eq!(et.timer_ms, 0);
    assert!(matches!(et.variant, Variant::EndTurn { who } if who == EntityId(9)));

    let rt = RoundCommand::recv_turn(EntityId(9));
    assert_eq!(rt.timer_ms, 250);
    assert!(matches!(rt.variant, Variant::RecvTurn { who } if who == EntityId(9)));

    let er = RoundCommand::end_round();
    assert_eq!(er.timer_ms, 250);
    assert!(matches!(er.variant, Variant::EndRound));

    let d = RoundCommand::default();
    assert!(matches!(d.variant, Variant::Nop));
    assert_eq!(d.timer_ms, 0);
    assert!(matches!(Variant::default(), Variant::Nop));
}

#[test]
fn alpha_is_symmetrically_clamped() {
    let mut c = RoundCommand::move_to(EntityId(1), GridPos::new(1, 0));
    assert_eq!(c.alpha_permille(), 0);
    c.timer_elapsed_ms = 100;
    assert_eq!(c.alpha_permille(), 500);
    c.timer_elapsed_ms = 200;
    assert_eq!(c.alpha_permille(), 1000);
    // elapsed past the duration clamps to 1, it does not overshoot
    c.timer_elapsed_ms = 999;
    assert_eq!(c.alpha_permille(), 1000);
    // a zero-duration command is complete at once
    let z = RoundCommand::move_far(EntityId(1), GridPos::new(0, 0));
    assert_eq!(z.alpha_permille(), 1000);
}

#[test]
fn is_executing_tracks_the_queue() {
    let mut r = Round::new();
    assert!(!r.is_executing());
    assert_eq!(r.queue_len(), 0);
    r.push_back(RoundCommand::nop());
    assert!(r.is_executing());
    r.push_front(RoundCommand::end_round());
    assert_eq!(r.queue_len(), 2);
    assert!(r.is_executing());
    // front is the most recently front-pushed command
    assert!(matches!(r.front().unwrap().variant, Variant::EndRound));
    let popped = r.pop_front().unwrap();
    assert!(matches!(popped.variant, Variant::EndRound));
    assert!(r.is_executing());
    let popped2 = r.pop_front().unwrap();
    assert!(matches!(popped2.variant, Variant::Nop));
    assert!(!r.is_executing());
    assert!(r.pop_front().is_none());
}

#[test]
fn advance_front_clamps_to_duration() {
    let mut r = Round::new();
    r.push_back(RoundCommand::move_to(EntityId(1), GridPos::new(1, 1)));
    r.advance_front(150);
    assert_eq!(r.front().unwrap().timer_elapsed_ms, 150);
    r.advance_front(150);
    assert_eq!(r.front().unwrap().timer_elapsed_ms, 200);
    r.advance_front(u32::MAX);
    assert_eq!(r.front().unwrap().timer_elapsed_ms, 200);
    // advancing an empty queue is a no-op
    let mut e = Round::new();
    e.advance_front(100);
    assert!(!e.is_executing());
}

#[test]
fn taken_bookkeeping() {
    let mut r = Round::new();
    assert!(!r.has_taken(EntityId(1)));
    r.mark_taken(EntityId(1));
    r.mark_taken(EntityId(1));
    r.mark_taken(EntityId(2));
    assert!(r.has_taken(EntityId(1)));
    assert!(r.has_taken(EntityId(2)));
    assert!(!r.has_taken(EntityId(3)));
    r.clear_taken();
    assert!(!r.has_taken(EntityId(1)));
    assert!(!r.has_taken(EntityId(2)));
}
