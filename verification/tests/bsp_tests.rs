use rogue_core::geometry::{Pos, Rect};
use rogue_core::bsp::{gen_bsp_tree, get_connecting_wall, BspSplitOpts};
use rogue_core::roomgraph::into_room_graph;

#[test]
fn connecting_wall_exact_strip() {
    let a = Rect { x1: 0, y1: 0, x2: 2, y2: 4 };
    let b = Rect { x1: 4, y1: 2, x2: 6, y2: 8 };
    // One wall column at x = 3, over the shared y span.
    assert_eq!(get_connecting_wall(a, b), Some(Rect { x1: 3, y1: 2, x2: 3, y2: 4 }));
    assert_eq!(get_connecting_wall(b, a), Some(Rect { x1: 3, y1: 2, x2: 3, y2: 4 }));
    let c = Rect { x1: 5, y1: 0, x2: 6, y2: 1 };
    assert_eq!(get_connecting_wall(a, c), None);
}

#[test]
fn bsp_room_graph_is_connected() {
    let mut rng = rogue_core::rng::new_rng();
    let opts = BspSplitOpts { min_width: 5, min_height: 5, max_width: 11, max_height: 11 };
    for _ in 0..8 {
        let rect = Rect { x1: 0, y1: 0, x2: 39, y2: 39 };
        let tree = gen_bsp_tree(rect, opts, &mut rng);
        let graph = into_room_graph(tree);
        let n = graph.rooms.len();
        assert!(n >= 1);
        // Breadth-first search over the adjacency lists from room zero.
        let mut seen = vec![false; n];
        let mut queue = vec![0usize];
        seen[0] = true;
        while let Some(i) = queue.pop() {
            for &j in &graph.adj[i] {
                if !seen[j] {
                    seen[j] = true;
                    queue.push(j);
                }
            }
        }
        assert!(seen.iter().all(|s| *s), "a room was unreachable");
        // Every edge joins rooms that share a one-cell wall.
        for i in 0..n {
            for &j in &graph.adj[i] {
                assert!(get_connecting_wall(graph.rooms[i], graph.rooms[j]).is_some());
            }
        }
        // Every room lies inside the bounding rectangle.
        for room in &graph.rooms {
            assert!(room.x1 >= rect.x1 && room.x2 <= rect.x2);
            assert!(room.y1 >= rect.y1 && room.y2 <= rect.y2);
            assert!(room.contains(Pos { x: room.x1, y: room.y1 }));
        }
    }
}

#[test]
fn extra_loops_keep_the_graph_connected() {
    let mut rng = rogue_core::rng::new_rng();
    let opts = BspSplitOpts { min_width: 3, min_height: 3, max_width: 8, max_height: 8 };
    let rect = Rect { x1: 0, y1: 0, x2: 19, y2: 19 };
    let tree = gen_bsp_tree(rect, opts, &mut rng);
    let mut graph = into_room_graph(tree);
    graph.add_extra_loops(10, &mut rng);
    let n = graph.rooms.len();
    let mut seen = vec![false; n];
    let mut queue = vec![0usize];
    seen[0] = true;
    while let Some(i) = queue.pop() {
        for &j in &graph.adj[i] {
            if !seen[j] {
                seen[j] = true;
                queue.push(j);
            }
        }
    }
    assert!(seen.iter().all(|s| *s));
}
