use astar::node::Node;
use astar::vertex::Vertex;

#[test]
fn pos_works() {
    let mut node = Node::new(Vertex::new(0, 0));
    assert_eq!(Vertex::new(0, 0), node.pos());

    node.pos = Vertex::new(1, -1);
    assert_eq!(Vertex::new(1, -1), node.pos());
}

#[test]
fn update_works() {
    let mut node = Node::new(Vertex::new(0, 0));
    assert_eq!(node.property.0, 0);

    node.update(12, 43);
    assert_eq!(node.property.0, 55);
}

#[test]
fn get_g_works() {
    let mut node = Node::new(Vertex::new(0, 0));
    assert_eq!(node.get_g(), 0);

    node.update(12, 4);
    assert_eq!(node.get_g(), 12);
}

#[test]
fn update_recomputes_all_scores() {
    let mut node = Node::new(Vertex::new(2, 3));
    node.update(7, 20);
    assert_eq!(node.property, (27, 7, 20));
    node.update(3, 5);
    assert_eq!(node.property, (8, 3, 5));
    assert_eq!(node.pos(), Vertex::new(2, 3));
    assert!(node.prev.is_none());
}
