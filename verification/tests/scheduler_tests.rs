use fivee_core::grid::{Grid, GridCell};
use fivee_core::pos::GridPos;
use fivee_core::round::{Round, RoundCommand, Variant};
use fivee_core::systems::{
    assign_active_entity_system, assign_initiative_system,
    finish_round_command_system, update_round_command_system,
};
use fivee_core::token::{EntityId, Token, Tokens};

fn open_grid(size: usize) -> Grid {
    let mut g = Grid::new(size);
    for x in 0..size as i32 {
        for y in 0..size as i32 {
            g.set(
                GridPos::new(x, y),
                GridCell { blocked: false, walkable: true, entity: None },
            );
        }
    }
    g
}

fn actor(id: u64, x: i32, y: i32, movement: i32, speed: i32) -> Token {
    Token {
        id: EntityId(id),
        grid_pos: GridPos::new(x, y),
        movement_ft: movement,
        speed_ft: speed,
        player: None,
    }
}

fn pos_of(tokens: &Tokens, id: u64) -> GridPos {
    let i = tokens.find(EntityId(id)).expect("actor exists");
    tokens.at(i).grid_pos
}

fn movement_of(tokens: &Tokens, id: u64) -> i32 {
    let i = tokens.find(EntityId(id)).expect("actor exists");
    tokens.at(i).movement_ft
}

/// Advance one full tick: command update, then finalization.
fn tick(round: &mut Round, tokens: &mut Tokens, grid: &Grid, delta_ms: u32) {
    update_round_command_system(round, delta_ms);
    finish_round_command_system(round, tokens, grid);
}

#[test]
fn move_to_commits_once_after_full_duration() {
    // timer 0.2s, ticked with 0.1 then 0.15: the elapsed time clamps to
    // 0.2 exactly on the second tick, progress reaches 1, and the move
    // commits exactly once.
    let grid = open_grid(5);
    let mut tokens = Tokens::new();
    tokens.spawn(actor(1, 0, 0, 30, 30));
    let mut round = Round::new();
    round.push_back(RoundCommand::move_to(EntityId(1), GridPos::new(1, 0)));

    tick(&mut round, &mut tokens, &grid, 100);
    assert_eq!(round.front().unwrap().timer_elapsed_ms, 100);
    assert_eq!(pos_of(&tokens, 1), GridPos::new(0, 0));

    update_round_command_system(&mut round, 150);
    let front = round.front().unwrap();
    assert_eq!(front.timer_elapsed_ms, 200);
    assert_eq!(front.alpha_permille(), 1000);
    finish_round_command_system(&mut round, &mut tokens, &grid);
    assert_eq!(pos_of(&tokens, 1), GridPos::new(1, 0));
    assert_eq!(movement_of(&tokens, 1), 25);
    assert!(!round.is_executing());

    // a further tick changes nothing: the commit happened exactly once
    tick(&mut round, &mut tokens, &grid, 100);
    assert_eq!(pos_of(&tokens, 1), GridPos::new(1, 0));
    assert_eq!(movement_of(&tokens, 1), 25);
}

#[test]
fn move_far_expands_into_path_steps_and_executes_them() {
    // a reachable MoveFar enqueues exactly the MoveTo steps of the path,
    // in order, and executing them all leaves the actor at the target.
    let grid = open_grid(6);
    let mut tokens = Tokens::new();
    tokens.spawn(actor(1, 0, 0, 30, 30));
    let mut round = Round::new();
    round.push_back(RoundCommand::move_far(EntityId(1), GridPos::new(3, 0)));

    // MoveFar has a zero timer: it finalizes on the first tick
    finish_round_command_system(&mut round, &mut tokens, &grid);
    assert_eq!(round.queue_len(), 3);
    let expected = [GridPos::new(1, 0), GridPos::new(2, 0), GridPos::new(3, 0)];
    for step in expected.iter() {
        let front = *round.front().unwrap();
        assert!(
            matches!(front.variant, Variant::MoveTo { who, to } if who == EntityId(1) && to == *step)
        );
        tick(&mut round, &mut tokens, &grid, 200);
    }
    assert!(!round.is_executing());
    assert_eq!(pos_of(&tokens, 1), GridPos::new(3, 0));
    assert_eq!(movement_of(&tokens, 1), 15);
}

#[test]
fn move_far_out_of_budget_expands_nothing() {
    let grid = open_grid(6);
    let mut tokens = Tokens::new();
    tokens.spawn(actor(1, 0, 0, 10, 30));
    let mut round = Round::new();
    // (3,0) costs 15, which exceeds the actor's 10 ft of movement
    round.push_back(RoundCommand::move_far(EntityId(1), GridPos::new(3, 0)));
    finish_round_command_system(&mut round, &mut tokens, &grid);
    assert!(!round.is_executing());
    assert_eq!(pos_of(&tokens, 1), GridPos::new(0, 0));
}

#[test]
fn budget_exhaustion_mid_path_drops_remaining_steps() {
    // once a single step would exceed the remaining movement, that and all
    // further steps are dropped silently; completed steps stay committed.
    let grid = open_grid(6);
    let mut tokens = Tokens::new();
    tokens.spawn(actor(1, 0, 0, 15, 30));
    let mut round = Round::new();
    round.push_back(RoundCommand::move_far(EntityId(1), GridPos::new(3, 0)));
    finish_round_command_system(&mut round, &mut tokens, &grid);
    assert_eq!(round.queue_len(), 3);
    // the actor loses most of its movement before the steps resolve
    let i = tokens.find(EntityId(1)).unwrap();
    let mut t = *tokens.at(i);
    t.movement_ft = 7;
    tokens.set_at(i, t);
    for _ in 0..3 {
        tick(&mut round, &mut tokens, &grid, 200);
    }
    assert!(!round.is_executing());
    // only the first step resolved: 7 ft covered one 5 ft step
    assert_eq!(pos_of(&tokens, 1), GridPos::new(1, 0));
    assert_eq!(movement_of(&tokens, 1), 2);
}

#[test]
fn commands_for_missing_entities_are_skipped_silently() {
    let grid = open_grid(4);
    let mut tokens = Tokens::new();
    tokens.spawn(actor(1, 0, 0, 30, 30));
    let mut round = Round::new();
    round.push_back(RoundCommand::move_to(EntityId(99), GridPos::new(1, 0)));
    round.push_back(RoundCommand::move_far(EntityId(99), GridPos::new(2, 0)));
    round.push_back(RoundCommand::recv_turn(EntityId(99)));
    for _ in 0..3 {
        tick(&mut round, &mut tokens, &grid, 300);
    }
    // all three drained without effect and without a fault
    assert!(!round.is_executing());
    assert_eq!(pos_of(&tokens, 1), GridPos::new(0, 0));
    assert!(round.active().is_none());
}

#[test]
fn initiative_appends_new_actors_and_prunes_gone_ones() {
    let mut round = Round::new();
    let mut present = vec![EntityId(1), EntityId(2), EntityId(3)];
    assign_initiative_system(&mut round, &present);
    assert_eq!(*round.initiative(), vec![EntityId(1), EntityId(2), EntityId(3)]);
    // newly seen actors are marked as having acted already
    assert!(round.has_taken(EntityId(1)));
    assert!(round.has_taken(EntityId(3)));

    // actor 2 disappears, actor 4 appears
    present = vec![EntityId(1), EntityId(3), EntityId(4)];
    assign_initiative_system(&mut round, &present);
    assert_eq!(*round.initiative(), vec![EntityId(1), EntityId(3), EntityId(4)]);
    assert!(round.has_taken(EntityId(4)));
}

#[test]
fn initiative_is_untouched_while_a_command_executes() {
    let mut round = Round::new();
    round.push_back(RoundCommand::nop());
    let present = vec![EntityId(1)];
    assign_initiative_system(&mut round, &present);
    assert_eq!(round.initiative().len(), 0);
    let next = assign_active_entity_system(&mut round);
    assert!(next.is_none());
    assert_eq!(round.queue_len(), 1);
}

#[test]
fn two_actor_round_cycle() {
    // initiative [A, B], both yet to act: A receives the turn first; after
    // A ends its turn, B receives it; after B ends its turn the round
    // ends, the counter increments and the "has acted" set clears.
    let grid = open_grid(8);
    let mut tokens = Tokens::new();
    tokens.spawn(actor(1, 0, 0, 0, 30));
    tokens.spawn(actor(2, 3, 3, 0, 25));
    let a = EntityId(1);
    let b = EntityId(2);
    let mut round = Round::new();
    let ids = tokens.ids();
    assign_initiative_system(&mut round, &ids);
    // start the scenario with a fresh round: no one has acted yet
    round.clear_taken();

    let next = assign_active_entity_system(&mut round);
    assert_eq!(next, Some(a));
    assert!(
        matches!(round.front().unwrap().variant, Variant::RecvTurn { who } if who == a)
    );
    tick(&mut round, &mut tokens, &grid, 250);
    assert_eq!(round.active(), Some(a));
    // receiving the turn refills movement from the statblock speed
    assert_eq!(movement_of(&tokens, 1), 30);

    // while A holds the turn, no new turn is handed out
    assert!(assign_active_entity_system(&mut round).is_none());

    round.push_back(RoundCommand::end_turn(a));
    tick(&mut round, &mut tokens, &grid, 100);
    assert!(round.active().is_none());
    assert!(round.has_taken(a));

    let next = assign_active_entity_system(&mut round);
    assert_eq!(next, Some(b));
    tick(&mut round, &mut tokens, &grid, 250);
    assert_eq!(round.active(), Some(b));
    assert_eq!(movement_of(&tokens, 2), 25);

    round.push_back(RoundCommand::end_turn(b));
    tick(&mut round, &mut tokens, &grid, 100);
    assert!(round.has_taken(b));

    // everyone has acted: the round ends
    let next = assign_active_entity_system(&mut round);
    assert!(next.is_none());
    assert!(
        matches!(round.front().unwrap().variant, Variant::EndRound)
    );
    assert_eq!(round.round_number(), 0);
    tick(&mut round, &mut tokens, &grid, 250);
    assert_eq!(round.round_number(), 1);
    assert!(!round.has_taken(a));
    assert!(!round.has_taken(b));
    assert!(round.active().is_none());

    // the next round begins with A again
    let next = assign_active_entity_system(&mut round);
    assert_eq!(next, Some(a));
}

#[test]
fn end_turn_from_a_non_holder_changes_nothing() {
    let grid = open_grid(4);
    let mut tokens = Tokens::new();
    tokens.spawn(actor(1, 0, 0, 30, 30));
    tokens.spawn(actor(2, 1, 1, 30, 30));
    let mut round = Round::new();
    round.set_active(Some(EntityId(1)));
    round.push_back(RoundCommand::end_turn(EntityId(2)));
    tick(&mut round, &mut tokens, &grid, 100);
    assert_eq!(round.active(), Some(EntityId(1)));
    assert!(!round.has_taken(EntityId(2)));
}
