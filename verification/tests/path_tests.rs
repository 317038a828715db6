use rogue_core::geometry::Pos;
use rogue_core::grid::CellSet;
use rogue_core::pathfind::{path, find_hiding_spot};

#[test]
fn open_grid_path_has_manhattan_length() {
    let empty = CellSet::new();
    let s = Pos { x: 0, y: 0 };
    let g = Pos { x: 3, y: 2 };
    let r = path(s, g, 10, &empty, &empty, &empty).expect("open grid must have a path");
    assert_eq!(r[0], s);
    assert_eq!(*r.last().unwrap(), g);
    // One cell per Manhattan step, endpoints included.
    assert_eq!(r.len(), 6);
}

#[test]
fn blocked_goal_is_still_reached() {
    let mut blocked = CellSet::new();
    let g = Pos { x: 4, y: 0 };
    blocked.insert(g);
    let empty = CellSet::new();
    let r = path(Pos { x: 0, y: 0 }, g, 10, &blocked, &empty, &empty)
        .expect("a blocked goal is still a legal destination");
    assert_eq!(*r.last().unwrap(), g);
}

#[test]
fn enclosed_start_has_no_path() {
    let mut blocked = CellSet::new();
    blocked.insert(Pos { x: 1, y: 0 });
    blocked.insert(Pos { x: -1, y: 0 });
    blocked.insert(Pos { x: 0, y: 1 });
    blocked.insert(Pos { x: 0, y: -1 });
    let empty = CellSet::new();
    let r = path(Pos { x: 0, y: 0 }, Pos { x: 5, y: 5 }, 10, &blocked, &empty, &empty);
    assert!(r.is_none());
}

#[test]
fn distance_bound_prunes_far_goals() {
    let empty = CellSet::new();
    // Every first step leaves the Euclidean ball of radius 1 around the
    // goal, so nothing is reachable within the bound.
    let r = path(Pos { x: 0, y: 0 }, Pos { x: 9, y: 0 }, 1, &empty, &empty, &empty);
    assert!(r.is_none());
}

#[test]
fn hiding_spot_is_found_through_open_ground() {
    let walk_blocked = CellSet::new();
    let mut sight_blocked = CellSet::new();
    sight_blocked.insert(Pos { x: 2, y: 0 });
    let r = find_hiding_spot(Pos { x: 0, y: 0 }, &walk_blocked, &sight_blocked);
    assert_eq!(r, Some(Pos { x: 2, y: 0 }));
}

#[test]
fn hiding_spot_respects_walls() {
    // The only cover is sealed off; the capped search returns nothing.
    let mut walk_blocked = CellSet::new();
    for x in -3..=3 {
        for y in -3..=3 {
            if x == -3 || x == 3 || y == -3 || y == 3 {
                walk_blocked.insert(Pos { x, y });
            }
        }
    }
    let mut sight_blocked = CellSet::new();
    sight_blocked.insert(Pos { x: 10, y: 10 });
    let r = find_hiding_spot(Pos { x: 0, y: 0 }, &walk_blocked, &sight_blocked);
    assert_eq!(r, None);
}
