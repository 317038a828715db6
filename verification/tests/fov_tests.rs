use rogue_core::geometry::Pos;
use rogue_core::grid::CellSet;
use rogue_core::fov::{calculate_fov, line_to};

#[test]
fn line_endpoints_and_steps() {
    let a = Pos { x: 0, y: 0 };
    let b = Pos { x: 5, y: 3 };
    let line = line_to(a, b);
    assert_eq!(line[0], a);
    assert_eq!(*line.last().unwrap(), b);
    assert_eq!(line.len() as i64, 9);
    for w in line.windows(2) {
        let d = (w[0].x - w[1].x).abs() + (w[0].y - w[1].y).abs();
        assert_eq!(d, 1);
    }
}

#[test]
fn wall_is_visible_but_hides_what_is_behind() {
    let mut opaque = CellSet::new();
    opaque.insert(Pos { x: 1, y: 0 });
    let fov = calculate_fov(Pos { x: 0, y: 0 }, 5, &opaque);
    // The origin sees itself and the wall.
    assert!(fov.contains(Pos { x: 0, y: 0 }));
    assert!(fov.contains(Pos { x: 1, y: 0 }));
    // Cells straight behind the wall are hidden.
    assert!(!fov.contains(Pos { x: 2, y: 0 }));
    assert!(!fov.contains(Pos { x: 3, y: 0 }));
}

#[test]
fn radius_bounds_visibility() {
    let opaque = CellSet::new();
    let fov = calculate_fov(Pos { x: 0, y: 0 }, 3, &opaque);
    assert!(fov.contains(Pos { x: 3, y: 0 }));
    assert!(!fov.contains(Pos { x: 4, y: 0 }));
    assert!(!fov.contains(Pos { x: 3, y: 1 }));
}

#[test]
fn growing_radius_never_removes_cells() {
    let mut opaque = CellSet::new();
    opaque.insert(Pos { x: 1, y: 1 });
    opaque.insert(Pos { x: -2, y: 0 });
    let small = calculate_fov(Pos { x: 0, y: 0 }, 4, &opaque);
    let large = calculate_fov(Pos { x: 0, y: 0 }, 9, &opaque);
    for x in -10..=10 {
        for y in -10..=10 {
            let p = Pos { x, y };
            if small.contains(p) {
                assert!(large.contains(p), "cell lost at ({x},{y})");
            }
        }
    }
}

#[test]
fn cell_set_insert_remove_clear() {
    let mut s = CellSet::new();
    let p = Pos { x: 7, y: -3 };
    let q = Pos { x: -3, y: 7 };
    assert!(!s.contains(p));
    s.insert(p);
    s.insert(q);
    assert!(s.contains(p) && s.contains(q));
    s.remove(p);
    assert!(!s.contains(p) && s.contains(q));
    s.clear();
    assert!(!s.contains(q));
}
