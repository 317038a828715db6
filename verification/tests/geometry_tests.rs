use rogue_core::geometry::{manhattan_dist, dist_squared, cardinal_neighbors, Pos, Rect};
use rogue_core::items::GunType;
use rogue_core::tiles::TileKind;

#[test]
fn manhattan_exact_values() {
    let a = Pos { x: 0, y: 0 };
    let b = Pos { x: 3, y: -4 };
    assert_eq!(manhattan_dist(a, b), 7);
    assert_eq!(manhattan_dist(b, a), 7);
    assert_eq!(manhattan_dist(a, a), 0);
}

#[test]
fn dist_squared_exact_values() {
    let a = Pos { x: 1, y: 2 };
    let b = Pos { x: 4, y: 6 };
    assert_eq!(dist_squared(a, b), 25);
    assert_eq!(dist_squared(a, a), 0);
}

#[test]
fn neighbors_are_the_four_cardinals() {
    let n = cardinal_neighbors(Pos { x: 2, y: 3 });
    assert_eq!(n.len(), 4);
    assert!(n.contains(&Pos { x: 3, y: 3 }));
    assert!(n.contains(&Pos { x: 1, y: 3 }));
    assert!(n.contains(&Pos { x: 2, y: 4 }));
    assert!(n.contains(&Pos { x: 2, y: 2 }));
}

#[test]
fn rect_contains_and_edges() {
    let r = Rect { x1: -1, y1: 0, x2: 3, y2: 2 };
    assert!(r.contains(Pos { x: -1, y: 0 }));
    assert!(r.contains(Pos { x: 3, y: 2 }));
    assert!(!r.contains(Pos { x: 4, y: 2 }));
    assert_eq!(r.left_edge(), Rect { x1: -1, y1: 0, x2: -1, y2: 2 });
    assert_eq!(r.right_edge(), Rect { x1: 3, y1: 0, x2: 3, y2: 2 });
    assert_eq!(r.top_edge(), Rect { x1: -1, y1: 0, x2: 3, y2: 0 });
    assert_eq!(r.bottom_edge(), Rect { x1: -1, y1: 2, x2: 3, y2: 2 });
}

#[test]
fn rect_intersect_and_center() {
    let a = Rect { x1: 0, y1: 0, x2: 4, y2: 4 };
    let b = Rect { x1: 3, y1: 2, x2: 8, y2: 9 };
    assert_eq!(a.intersect(&b), Some(Rect { x1: 3, y1: 2, x2: 4, y2: 4 }));
    let c = Rect { x1: 6, y1: 0, x2: 8, y2: 4 };
    assert_eq!(a.intersect(&c), None);
    let center = a.center();
    assert!(a.contains(center));
    assert_eq!(center, Pos { x: 2, y: 2 });
}

#[test]
fn rect_centered_and_shifted() {
    let r = Rect::new_centered(Pos { x: 0, y: 0 }, 16, 24);
    assert_eq!(r.x2 - r.x1 + 1, 16);
    assert_eq!(r.y2 - r.y1 + 1, 24);
    assert!(r.contains(Pos { x: 0, y: 0 }));
    let s = Rect::new_centered(Pos { x: 0, y: 0 }, 10, 10).shift_right_of(r);
    assert_eq!(s.x1, r.x2 + 1);
    assert_eq!(s.x2 - s.x1 + 1, 10);
}

#[test]
fn rect_cells_are_distinct_and_complete() {
    let r = Rect { x1: 0, y1: 0, x2: 3, y2: 2 };
    let cells = r.cells();
    assert_eq!(cells.len(), 12);
    for c in &cells {
        assert!(r.contains(*c));
    }
    for i in 0..cells.len() {
        for j in i + 1..cells.len() {
            assert_ne!(cells[i], cells[j]);
        }
    }
}

#[test]
fn gun_tables_match() {
    let pistol = GunType::Pistol.get_info();
    assert_eq!(pistol.max_load, 15);
    assert_eq!(pistol.num_projectiles, 1);
    assert!(!pistol.loads_one_at_a_time);
    let shotgun = GunType::Shotgun.get_info();
    assert_eq!(shotgun.max_load, 2);
    assert_eq!(shotgun.num_projectiles, 10);
    assert!(shotgun.loads_one_at_a_time);
    assert_eq!(GunType::Pistol.name(), "pistol");
    assert_eq!(GunType::Shotgun.name(), "shotgun");
}

#[test]
fn tile_kinds_block_as_documented() {
    for k in [TileKind::Wall, TileKind::Tree, TileKind::ShippingContainer] {
        assert!(k.blocks_movement());
    }
    for k in [TileKind::Bush, TileKind::Crate, TileKind::Door] {
        assert!(!k.blocks_movement());
    }
    for k in [
        TileKind::Wall,
        TileKind::Tree,
        TileKind::ShippingContainer,
        TileKind::Bush,
        TileKind::Crate,
        TileKind::Door,
    ] {
        assert!(k.blocks_sight());
    }
}
