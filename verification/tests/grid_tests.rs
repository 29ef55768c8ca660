use astar::grid::{get_map_without_walls, get_vector_smeg, is_set};
use astar::vertex::Vertex;

#[test]
fn is_set_finds_walls() {
    let walls = vec![Vertex::new(0, 1), Vertex::new(2, 2)];
    assert!(is_set((0, 1), &walls));
    assert!(is_set((2, 2), &walls));
    assert!(!is_set((1, 0), &walls));
}

#[test]
fn neighbors_respect_bounds_and_walls() {
    // A 2-rows by 2-cols grid with a wall at (0,1).
    let walls = vec![Vertex::new(0, 1)];
    assert_eq!(get_vector_smeg((0, 0), (2, 2), &walls), vec![Vertex::new(1, 0)]);
    assert_eq!(
        get_vector_smeg((1, 0), (2, 2), &walls),
        vec![Vertex::new(0, 0), Vertex::new(1, 1)]
    );
    assert_eq!(get_vector_smeg((1, 1), (2, 2), &walls), vec![Vertex::new(1, 0)]);
}

#[test]
fn build_map_works() {
    // The same 2 by 2 grid with a wall at (0,1): three open cells.
    let walls = vec![Vertex::new(0, 1)];
    let map = get_map_without_walls((2, 2), &walls);
    assert_eq!(map.len(), 3);
    assert!(map.contains_key(&Vertex::new(0, 0)));
    assert!(map.contains_key(&Vertex::new(1, 0)));
    assert!(map.contains_key(&Vertex::new(1, 1)));
    assert!(!map.contains_key(&Vertex::new(0, 1)));

    assert_eq!(map.neighbors(&Vertex::new(0, 0)).unwrap(), &vec![Vertex::new(1, 0)]);
    assert_eq!(
        map.neighbors(&Vertex::new(1, 0)).unwrap(),
        &vec![Vertex::new(0, 0), Vertex::new(1, 1)]
    );
    assert_eq!(map.neighbors(&Vertex::new(1, 1)).unwrap(), &vec![Vertex::new(1, 0)]);
    assert!(map.neighbors(&Vertex::new(0, 1)).is_none());
}

#[test]
fn empty_grid_has_no_keys() {
    let map = get_map_without_walls((0, 0), &vec![]);
    assert_eq!(map.len(), 0);
    assert!(!map.contains_key(&Vertex::new(0, 0)));
}
