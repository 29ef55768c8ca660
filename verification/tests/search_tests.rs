use astar::graph::Graph;
use astar::search::{AStar, PathError};
use astar::vertex::Vertex;

/// A 4-rows by 3-cols grid with no walls.
fn open_grid_4_by_3() -> Graph {
    astar::grid::get_map_without_walls((4, 3), &vec![])
}

/// The total edge cost of a goal-first path, summed backwards along the
/// walk.
fn path_cost(path: &Vec<Vertex>) -> i32 {
    let mut cost = 0;
    for i in 0..path.len() - 1 {
        cost += path[i + 1].distance(&path[i]);
    }
    cost
}

/// A plain Dijkstra baseline over the graph's public interface.
fn dijkstra_cost(graph: &Graph, start: Vertex, goal: Vertex) -> Option<i32> {
    let n = graph.len();
    let mut verts: Vec<Vertex> = Vec::new();
    for i in 0..n {
        verts.push(graph.key_at(i));
    }
    let mut dist: Vec<Option<i32>> = vec![None; n];
    let mut done: Vec<bool> = vec![false; n];
    let start_i = verts.iter().position(|v| *v == start)?;
    dist[start_i] = Some(0);
    loop {
        let mut best: Option<usize> = None;
        for i in 0..n {
            if !done[i] {
                if let Some(d) = dist[i] {
                    if best.is_none() || d < dist[best.unwrap()].unwrap() {
                        best = Some(i);
                    }
                }
            }
        }
        let u = match best {
            Some(u) => u,
            None => return None,
        };
        if verts[u] == goal {
            return dist[u];
        }
        done[u] = true;
        if let Some(nbrs) = graph.neighbors(&verts[u]) {
            for w in nbrs {
                if let Some(wi) = verts.iter().position(|v| v == w) {
                    let nd = dist[u].unwrap() + verts[u].distance(w);
                    if dist[wi].is_none() || nd < dist[wi].unwrap() {
                        dist[wi] = Some(nd);
                    }
                }
            }
        }
    }
}

#[test]
fn find_path_works1() {
    let mut map = Graph::new();
    map.insert(Vertex::new(0, 0), vec![]);

    if let Ok(Some(_)) = AStar::find_path(&map, Vertex::new(0, 0), Vertex::new(1, 1)) {
        panic!();
    }
}

#[test]
fn find_path_works2() {
    let mut map = Graph::new();
    map.insert(Vertex::new(0, 0), vec![]);

    if let Ok(None) = AStar::find_path(&map, Vertex::new(0, 0), Vertex::new(0, 0)) {
        panic!();
    }
}

#[test]
fn goal_absent_reports_no_path() {
    let mut map = Graph::new();
    map.insert(Vertex::new(0, 0), vec![]);
    let r = AStar::find_path(&map, Vertex::new(0, 0), Vertex::new(1, 1));
    assert!(matches!(r, Ok(None)));
}

#[test]
fn start_equals_goal_gives_singleton_path() {
    let mut map = Graph::new();
    map.insert(Vertex::new(0, 0), vec![]);
    let r = AStar::find_path(&map, Vertex::new(0, 0), Vertex::new(0, 0));
    assert_eq!(r, Ok(Some(vec![Vertex::new(0, 0)])));

    let grid = open_grid_4_by_3();
    let v = Vertex::new(2, 3);
    let r2 = AStar::find_path(&grid, v, v);
    assert_eq!(r2, Ok(Some(vec![v])));
}

#[test]
fn missing_start_is_invalid_vertex() {
    let mut map = Graph::new();
    map.insert(Vertex::new(0, 0), vec![]);
    let r = AStar::find_path(&map, Vertex::new(5, 5), Vertex::new(0, 0));
    assert_eq!(r, Err(PathError::InvalidVertex));
}

#[test]
fn empty_neighbor_list_gives_no_path() {
    let mut map = Graph::new();
    map.insert(Vertex::new(0, 0), vec![]);
    map.insert(Vertex::new(1, 1), vec![]);
    let r = AStar::find_path(&map, Vertex::new(0, 0), Vertex::new(1, 1));
    assert!(matches!(r, Ok(None)));
}

#[test]
fn open_grid_path_found() {
    // Scenario on a 4-rows by 3-cols open grid.
    let grid = open_grid_4_by_3();
    assert_eq!(Vertex::new(0, 0).distance(&Vertex::new(1, 0)), 10);
    assert_eq!(Vertex::new(0, 0).hdistance(&Vertex::new(1, 1)), 10);

    let r = AStar::find_path(&grid, Vertex::new(0, 0), Vertex::new(1, 1));
    let path = r.unwrap().expect("a path must exist on an open grid");
    // Goal-first, ending at the start.
    assert_eq!(path[0], Vertex::new(1, 1));
    assert_eq!(path[path.len() - 1], Vertex::new(0, 0));
    // Every consecutive pair is a graph edge, read backwards.
    for i in 0..path.len() - 1 {
        let nbrs = grid.neighbors(&path[i + 1]).expect("path vertex must be a key");
        assert!(nbrs.contains(&path[i]));
    }
}

#[test]
fn find_path_works3() {
    // A walled 4-rows by 6-cols grid: one corridor from (0,0) to (3,3), and
    // (5,2) open but sealed off by walls.
    let open_cells = [
        Vertex::new(0, 0),
        Vertex::new(0, 1),
        Vertex::new(0, 2),
        Vertex::new(1, 2),
        Vertex::new(1, 3),
        Vertex::new(2, 3),
        Vertex::new(3, 3),
        Vertex::new(5, 2),
    ];
    let mut walls = Vec::new();
    for y in 0..4 {
        for x in 0..6 {
            let v = Vertex::new(x, y);
            if !open_cells.contains(&v) {
                walls.push(v);
            }
        }
    }
    let map = astar::grid::get_map_without_walls((4, 6), &walls);

    if let Ok(Some(_)) = AStar::find_path(&map, Vertex::new(0, 0), Vertex::new(5, 2)) {
        panic!();
    }

    let correct_path = vec![
        Vertex::new(0, 0),
        Vertex::new(0, 1),
        Vertex::new(0, 2),
        Vertex::new(1, 2),
        Vertex::new(1, 3),
        Vertex::new(2, 3),
        Vertex::new(3, 3),
    ];

    let finded_path = AStar::find_path(&map, Vertex::new(0, 0), Vertex::new(3, 3))
        .unwrap()
        .unwrap();
    for node in finded_path {
        if correct_path.iter().find(|ref_node| **ref_node == node).is_none() {
            panic!();
        }
    }
}

#[test]
fn path_cost_matches_dijkstra_baseline() {
    // Optimality: the returned cost equals a brute-force shortest cost.
    let grid = open_grid_4_by_3();
    let (s, g) = (Vertex::new(0, 0), Vertex::new(2, 3));
    let expected = dijkstra_cost(&grid, s, g).expect("reachable");
    let path = AStar::find_path(&grid, s, g).unwrap().expect("reachable");
    assert_eq!(path_cost(&path), expected);

    // And on a walled grid, where the corridor forces a detour.
    let walls = vec![Vertex::new(1, 0), Vertex::new(1, 1), Vertex::new(1, 2)];
    let walled = astar::grid::get_map_without_walls((4, 3), &walls);
    let expected2 = dijkstra_cost(&walled, s, g).expect("reachable");
    let path2 = AStar::find_path(&walled, s, g).unwrap().expect("reachable");
    assert_eq!(path_cost(&path2), expected2);
    assert_eq!(expected2, 50);
}
