use rogue_core::geometry::{Pos, Rect};
use rogue_core::grid::BitGrid;
use rogue_core::flood::flood;
use rogue_core::tiles::{TileKind, TileMap};
use rogue_core::mapgen::{carve_cave, carve_boxyard, gen_map, Mapgen};
use rogue_core::spawn::Spawn;
use rogue_core::mob::MobKind;
use rogue_core::items::{GunType, ItemKind};

fn walkable_grid(tiles: &TileMap, rect: Rect) -> BitGrid {
    let mut g = BitGrid::new(rect);
    for p in rect.cells() {
        let open = match tiles.get(p) {
            None => true,
            Some(k) => !k.blocks_movement(),
        };
        if open {
            g.set(p, true);
        }
    }
    g
}

fn edges_connected(tiles: &TileMap, rect: Rect) -> bool {
    let walkable = walkable_grid(tiles, rect);
    let seeds: Vec<Pos> = rect
        .left_edge()
        .cells()
        .into_iter()
        .filter(|p| walkable.get(*p))
        .collect();
    let reach = flood(&seeds, &walkable);
    rect.right_edge().cells().iter().any(|p| reach.get(*p))
}

#[test]
fn carved_cave_is_connected_and_nonempty() {
    // A 40 by 40 region carved with heavy noise and many smoothing passes.
    let mut rng = rogue_core::rng::new_rng();
    let rect = Rect { x1: 0, y1: 0, x2: 39, y2: 39 };
    let mut tiles = TileMap::new(Some(TileKind::Wall));
    carve_cave(&mut tiles, rect, 100, 4, 5, &mut rng);
    let walkable_count = rect
        .cells()
        .iter()
        .filter(|p| tiles.get(**p).is_none())
        .count();
    assert!(walkable_count > 0);
    assert!(edges_connected(&tiles, rect));
}

#[test]
fn box_yard_is_connected() {
    let mut rng = rogue_core::rng::new_rng();
    let rect = Rect { x1: 0, y1: 0, x2: 59, y2: 43 };
    let mut tiles = TileMap::new(Some(TileKind::Wall));
    carve_boxyard(&mut tiles, rect, &mut rng);
    assert!(edges_connected(&tiles, rect));
}

#[test]
fn populate_is_collision_free() {
    let mut mg = Mapgen::new(Some(TileKind::Wall));
    let rect = Rect { x1: 0, y1: 0, x2: 9, y2: 9 };
    mg.tiles.set_rect(rect, None);
    let spawns = vec![
        (3usize, Spawn::Mob(MobKind::Zombie)),
        (2usize, Spawn::Item(ItemKind::Ammo(GunType::Pistol, 15))),
        (4usize, Spawn::Tile(TileKind::Bush)),
    ];
    let placed = mg.populate(rect, &spawns);
    assert_eq!(placed.len(), 9);
    for (i, (p, _)) in placed.iter().enumerate() {
        assert!(rect.contains(*p));
        for (q, _) in placed.iter().skip(i + 1) {
            assert_ne!(p, q, "two placements share a cell");
        }
    }
    assert_eq!(mg.mob_spawns.len(), 3);
    assert_eq!(mg.item_spawns.len(), 2);
}

#[test]
fn populate_respects_earlier_occupancy() {
    let mut mg = Mapgen::new(Some(TileKind::Wall));
    let rect = Rect { x1: 0, y1: 0, x2: 2, y2: 0 };
    mg.tiles.set_rect(rect, None);
    let first = vec![(2usize, Spawn::Mob(MobKind::Zombie))];
    let a = mg.populate(rect, &first);
    assert_eq!(a.len(), 2);
    let second = vec![(3usize, Spawn::Mob(MobKind::Hider))];
    let b = mg.populate(rect, &second);
    // Only one free cell was left for the second call.
    assert_eq!(b.len(), 1);
    for (p, _) in &a {
        assert!(!b.iter().any(|(q, _)| q == p));
    }
}

#[test]
fn generated_map_has_ordered_zones() {
    let result = gen_map();
    assert_eq!(result.zones.len(), 6);
    for w in result.zones.windows(2) {
        assert_eq!(w[1].x1, w[0].x2 + 1);
        assert!(w[0].x1 <= w[0].x2 && w[0].y1 <= w[0].y2);
    }
    assert!(!result.placements.is_empty());
    // The final zone keeps its boss.
    let boss = result.zones[5];
    assert!(result
        .placements
        .iter()
        .any(|(p, s)| matches!(s, Spawn::Mob(MobKind::Eyeball)) && boss.contains(*p)));
    // The field holds sparse bushes: some cells grew one, most stayed clear.
    let field = result.zones[0];
    let interior = Rect { x1: field.x1 + 1, y1: field.y1 + 1, x2: field.x2 - 1, y2: field.y2 - 1 };
    let bushes = result
        .placements
        .iter()
        .filter(|(p, s)| matches!(s, Spawn::Tile(TileKind::Bush)) && interior.contains(*p))
        .count();
    let interior_area = ((interior.x2 - interior.x1 + 1) * (interior.y2 - interior.y1 + 1)) as usize;
    assert!(bushes > 0 && bushes < interior_area);
}

#[test]
fn drunk_corridors_stay_in_bounds_and_reach_the_centre() {
    let mut rng = rogue_core::rng::new_rng();
    let rect = Rect { x1: 0, y1: 0, x2: 19, y2: 19 };
    let mut tiles = TileMap::new(Some(TileKind::Wall));
    let entrances = vec![Pos { x: 0, y: 5 }, Pos { x: 19, y: 12 }];
    rogue_core::mapgen::gen_forest_room(&mut tiles, &mut rng, &entrances, rect);
    // The walk carved floor up to the room's centre.
    assert_eq!(tiles.get(rect.center()), None);
    // Nothing outside the room changed.
    for x in -2..=21 {
        for y in [-2, -1, 20, 21] {
            assert_eq!(tiles.get(Pos { x, y }), Some(TileKind::Wall));
            assert_eq!(tiles.get(Pos { x: y, y: x }), Some(TileKind::Wall));
        }
    }
    // Every carved cell lies inside the room.
    for p in rect.cells() {
        let t = tiles.get(p);
        assert!(t == None || t == Some(TileKind::Wall));
    }
}

#[test]
fn random_empty_tile_is_walkable() {
    let mut rng = rogue_core::rng::new_rng();
    let rect = Rect { x1: 0, y1: 0, x2: 4, y2: 4 };
    let mut tiles = TileMap::new(Some(TileKind::Wall));
    assert_eq!(rogue_core::mapgen::get_random_empty_tile(&tiles, rect, &mut rng), None);
    tiles.set(Pos { x: 2, y: 3 }, None);
    assert_eq!(
        rogue_core::mapgen::get_random_empty_tile(&tiles, rect, &mut rng),
        Some(Pos { x: 2, y: 3 })
    );
}

#[test]
fn generated_zones_stay_connected() {
    let result = gen_map();
    // The two forests and the railyard still join their left edges to their
    // right edges in the finished map.
    assert!(edges_connected(&result.tiles, result.zones[1]));
    assert!(edges_connected(&result.tiles, result.zones[3]));
    assert!(edges_connected(&result.tiles, result.zones[4]));
    // The boss stands at the final zone's centre.
    let centre = result.zones[5].center();
    assert!(result
        .placements
        .iter()
        .any(|(p, s)| *p == centre && matches!(s, Spawn::Mob(MobKind::Eyeball))));
    // Mob and item placements never share a cell.
    let occupied: Vec<Pos> = result
        .placements
        .iter()
        .filter(|(_, s)| !matches!(s, Spawn::Tile(_)))
        .map(|(p, _)| *p)
        .collect();
    for i in 0..occupied.len() {
        for j in i + 1..occupied.len() {
            assert_ne!(occupied[i], occupied[j]);
        }
    }
}

#[test]
fn drunk_walk_reports_reaching_its_goal() {
    let mut rng = rogue_core::rng::new_rng();
    let rect = Rect { x1: 0, y1: 0, x2: 11, y2: 11 };
    let mut tiles = TileMap::new(Some(TileKind::Wall));
    let start = Pos { x: 0, y: 0 };
    let end = Pos { x: 11, y: 11 };
    let reached = rogue_core::mapgen::carve_line_drunk(
        &mut tiles, start, end, &mut rng, 3, 10, None, rect,
    );
    assert!(reached);
    assert_eq!(tiles.get(end), None);
}
