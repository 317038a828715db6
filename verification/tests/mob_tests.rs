use rogue_core::geometry::Pos;
use rogue_core::grid::CellSet;
use rogue_core::index::{update_player_visibility, update_walkability, update_visibility, update_occupancy, EntityRec};
use rogue_core::mob::{forget, sense_hearing, sense_sight, mob_tick, damage_mob, Memory, Mob, MobAction, MobKind};

#[test]
fn kind_tables_match() {
    assert_eq!(MobKind::Zombie.get_move_delay_ms(), 1000);
    assert_eq!(MobKind::Sculpture.get_move_delay_ms(), 16);
    assert_eq!(MobKind::Hider.get_move_delay_ms(), 200);
    assert_eq!(MobKind::KoolAidMan.get_move_delay_ms(), 100);
    assert_eq!(MobKind::Zombie.max_damage(), 3);
    assert_eq!(MobKind::Sculpture.max_damage(), 99);
    assert_eq!(MobKind::Hider.max_damage(), 2);
    assert_eq!(MobKind::KoolAidMan.max_damage(), 5);
}

#[test]
fn mob_with_clear_line_acquires_player() {
    // A mob at the origin, the player five cells away with nothing between.
    let mut mob = Mob::new(MobKind::Zombie, Pos { x: 0, y: 0 });
    let player = Pos { x: 0, y: 5 };
    let sight_blocked = CellSet::new();
    let visibility = update_player_visibility(player, &sight_blocked);
    sense_sight(&mut mob, player, &visibility, &sight_blocked, None);
    assert_eq!(mob.saw, Some(Memory { pos: player, elapsed_ms: 0 }));
}

#[test]
fn hidden_player_is_not_acquired() {
    let mut mob = Mob::new(MobKind::Zombie, Pos { x: 0, y: 0 });
    let player = Pos { x: 0, y: 5 };
    let mut sight_blocked = CellSet::new();
    sight_blocked.insert(player);
    let visibility = update_player_visibility(player, &sight_blocked);
    sense_sight(&mut mob, player, &visibility, &sight_blocked, None);
    assert_eq!(mob.saw, None);
}

#[test]
fn memory_is_forgotten_after_the_duration() {
    let mut mob = Mob::new(MobKind::Zombie, Pos { x: 0, y: 0 });
    mob.saw = Some(Memory { pos: Pos { x: 5, y: 5 }, elapsed_ms: 0 });
    // Thirty seconds of ticks leave the memory in place...
    for _ in 0..30 {
        forget(&mut mob, 1000);
    }
    assert!(mob.saw.is_some());
    // ...and the next tick past the duration drops it.
    forget(&mut mob, 1000);
    assert_eq!(mob.saw, None);
}

#[test]
fn memory_is_dropped_on_arrival() {
    let spot = Pos { x: 2, y: 0 };
    let mut mob = Mob::new(MobKind::Zombie, spot);
    mob.heard = Some(Memory { pos: spot, elapsed_ms: 0 });
    forget(&mut mob, 1);
    assert_eq!(mob.heard, None);
}

#[test]
fn hearing_has_a_radius() {
    let mut mob = Mob::new(MobKind::Zombie, Pos { x: 0, y: 0 });
    sense_hearing(&mut mob, Pos { x: 20, y: 5 });
    assert_eq!(mob.heard, Some(Memory { pos: Pos { x: 20, y: 5 }, elapsed_ms: 0 }));
    let mut deaf = Mob::new(MobKind::Zombie, Pos { x: 0, y: 0 });
    sense_hearing(&mut deaf, Pos { x: 21, y: 0 });
    assert_eq!(deaf.heard, None);
}

#[test]
fn mob_steps_toward_its_memory_and_reserves_the_cell() {
    let mut mob = Mob::new(MobKind::Zombie, Pos { x: 0, y: 0 });
    mob.saw = Some(Memory { pos: Pos { x: 3, y: 0 }, elapsed_ms: 0 });
    let mut walk_blocked = CellSet::new();
    let empty1 = CellSet::new();
    let empty2 = CellSet::new();
    let empty3 = CellSet::new();
    let action = mob_tick(
        &mut mob,
        Pos { x: 9, y: 9 },
        &mut walk_blocked,
        &empty1,
        &empty2,
        &empty3,
        1000,
    );
    match action {
        MobAction::Move { to, bust } => {
            assert!(!bust);
            assert_eq!((to.x - 0).abs() + (to.y - 0).abs(), 1);
            assert_eq!(mob.pos, to);
            assert!(walk_blocked.contains(to));
        }
        other => panic!("expected a move, got {:?}", other),
    }
}

#[test]
fn step_onto_player_attacks_instead_of_moving() {
    let player = Pos { x: 1, y: 0 };
    let mut mob = Mob::new(MobKind::Zombie, Pos { x: 0, y: 0 });
    mob.saw = Some(Memory { pos: player, elapsed_ms: 0 });
    let mut walk_blocked = CellSet::new();
    let empty1 = CellSet::new();
    let empty2 = CellSet::new();
    let empty3 = CellSet::new();
    let action = mob_tick(&mut mob, player, &mut walk_blocked, &empty1, &empty2, &empty3, 1000);
    assert_eq!(action, MobAction::Attack);
    assert_eq!(mob.pos, Pos { x: 0, y: 0 });
}

#[test]
fn damage_threshold_kills() {
    let mut mob = Mob::new(MobKind::Zombie, Pos { x: 0, y: 0 });
    assert!(!damage_mob(&mut mob, 2));
    assert!(damage_mob(&mut mob, 1));
    assert_eq!(mob.damage, 3);
}

#[test]
fn indices_are_rebuilt_from_entities() {
    let entities = vec![
        EntityRec { id: 1, pos: Pos { x: 0, y: 0 }, blocks_movement: true, blocks_sight: false },
        EntityRec { id: 2, pos: Pos { x: 1, y: 0 }, blocks_movement: false, blocks_sight: true },
        EntityRec { id: 3, pos: Pos { x: 1, y: 0 }, blocks_movement: false, blocks_sight: false },
    ];
    let walk = update_walkability(&entities);
    assert!(walk.contains(Pos { x: 0, y: 0 }));
    assert!(!walk.contains(Pos { x: 1, y: 0 }));
    let sight = update_visibility(&entities);
    assert!(sight.contains(Pos { x: 1, y: 0 }));
    assert!(!sight.contains(Pos { x: 0, y: 0 }));
    let occ = update_occupancy(&entities);
    let here = occ.get(Pos { x: 1, y: 0 });
    assert!(here.contains(&2) && here.contains(&3) && !here.contains(&1));
    let near = occ.get_nearby(Pos { x: 0, y: 0 }, 5);
    assert!(near.contains(&1) && near.contains(&2) && near.contains(&3));
}

#[test]
fn charger_runs_a_straight_line_and_overshoots() {
    let player = Pos { x: 9, y: 9 };
    let mut mob = Mob::new(MobKind::KoolAidMan, Pos { x: 0, y: 0 });
    mob.saw = Some(Memory { pos: Pos { x: 3, y: 0 }, elapsed_ms: 0 });
    let mut walk_blocked = CellSet::new();
    let empty1 = CellSet::new();
    let empty2 = CellSet::new();
    let empty3 = CellSet::new();
    let mut busted = false;
    // One tick arms the charge; seven more walk the line, overshooting the
    // remembered cell by up to four cells.
    for _ in 0..8 {
        match mob_tick(&mut mob, player, &mut walk_blocked, &empty1, &empty2, &empty3, 1000) {
            MobAction::Move { bust, .. } => busted |= bust,
            _ => {}
        }
    }
    assert!(busted);
    assert_eq!(mob.pos, Pos { x: 6, y: 0 });
}

#[test]
fn reinforcements_appear_outside_the_player_view() {
    let mut rng = rogue_core::rng::new_rng();
    let origin = Pos { x: 0, y: 0 };
    // With an empty visibility set every cell of the square is legal.
    let nothing_seen = CellSet::new();
    let p = rogue_core::mob::pick_spawn_cell(origin, &nothing_seen, &mut rng).unwrap();
    assert!((-5..=4).contains(&p.x) && (-5..=4).contains(&p.y));
    // With the whole square visible there is nowhere to appear.
    let mut all_seen = CellSet::new();
    for x in -5..=4 {
        for y in -5..=4 {
            all_seen.insert(Pos { x, y });
        }
    }
    assert_eq!(rogue_core::mob::pick_spawn_cell(origin, &all_seen, &mut rng), None);
}

#[test]
fn mob_waits_until_its_move_delay_elapses() {
    let mut mob = Mob::new(MobKind::Zombie, Pos { x: 0, y: 0 });
    mob.saw = Some(Memory { pos: Pos { x: 3, y: 0 }, elapsed_ms: 0 });
    let mut walk_blocked = CellSet::new();
    let empty1 = CellSet::new();
    let empty2 = CellSet::new();
    let empty3 = CellSet::new();
    // A zombie moves once a second; half a second is not enough.
    let action = mob_tick(&mut mob, Pos { x: 9, y: 9 }, &mut walk_blocked, &empty1, &empty2, &empty3, 500);
    assert_eq!(action, MobAction::Wait);
    assert_eq!(mob.pos, Pos { x: 0, y: 0 });
    // The second half of the second triggers the move.
    let action = mob_tick(&mut mob, Pos { x: 9, y: 9 }, &mut walk_blocked, &empty1, &empty2, &empty3, 500);
    assert!(matches!(action, MobAction::Move { .. }));
}

#[test]
fn exposed_hider_flees_to_cover() {
    // The hider remembers a far-away player and stands exposed; it heads for
    // the one cover cell instead of chasing.
    let mut mob = Mob::new(MobKind::Hider, Pos { x: 0, y: 0 });
    mob.saw = Some(Memory { pos: Pos { x: 30, y: 0 }, elapsed_ms: 0 });
    let mut walk_blocked = CellSet::new();
    let mut sight_blocked = CellSet::new();
    sight_blocked.insert(Pos { x: -2, y: 0 });
    let empty1 = CellSet::new();
    let empty2 = CellSet::new();
    let action = mob_tick(
        &mut mob,
        Pos { x: 30, y: 0 },
        &mut walk_blocked,
        &sight_blocked,
        &empty1,
        &empty2,
        1000,
    );
    match action {
        MobAction::Move { to, bust } => {
            assert!(!bust);
            assert_eq!(to, Pos { x: -1, y: 0 });
        }
        other => panic!("expected a move toward cover, got {:?}", other),
    }
}
