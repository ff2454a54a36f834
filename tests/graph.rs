use planar_graph::edge::Edge;
use planar_graph::graph::create_graph;
use planar_graph::node::Node;
use planar_graph::vector::Vector;

fn n(x: i32, y: i32) -> Node {
    Node::new(&Vector::new(x, y))
}

fn e(a: Node, b: Node) -> Edge {
    Edge::new(&a, &b)
}

#[test]
fn constructors_keep_their_fields() {
    let p = Vector::new(3, -4);
    assert_eq!((p.x, p.y), (3, -4));
    let a = Node::new(&p);
    assert_eq!(a.position, p);
    let b = n(1, 1);
    let edge = Edge::new(&a, &b);
    assert_eq!(edge.a, a);
    assert_eq!(edge.b, b);
}

#[test]
fn nodes_compare_by_position() {
    assert_eq!(n(2, 5), Node::new(&Vector::new(2, 5)));
    assert_ne!(n(2, 5), n(5, 2));
}

#[test]
fn edges_show_both_ways() {
    let (u, v, w) = (n(0, 0), n(1, 0), n(0, 1));
    let g = create_graph(vec![u, v, w], vec![e(u, v), e(w, u)]);
    assert_eq!(g.get(&u).unwrap(), &vec![v, w]);
    assert_eq!(g.get(&v).unwrap(), &vec![u]);
    assert_eq!(g.get(&w).unwrap(), &vec![u]);
}

#[test]
fn untouched_node_has_no_entry() {
    let (u, v, lone) = (n(0, 0), n(1, 0), n(7, 7));
    let g = create_graph(vec![u, lone, v], vec![e(u, v)]);
    assert!(g.get(&lone).is_none());
    assert_eq!(g.len(), 2);
    assert_eq!(g.keys(), vec![u, v]);
}

#[test]
fn repeated_edge_repeats_neighbor() {
    let (u, v) = (n(0, 0), n(1, 0));
    let g = create_graph(vec![u, v], vec![e(u, v), e(u, v)]);
    assert_eq!(g.get(&u).unwrap(), &vec![v, v]);
    assert_eq!(g.get(&v).unwrap(), &vec![u, u]);
}

#[test]
fn building_twice_gives_the_same_graph() {
    let (u, v, w) = (n(0, 0), n(1, 0), n(0, 1));
    let nodes = vec![w, u, v];
    let edges = vec![e(u, v), e(v, w), e(u, w)];
    let first = create_graph(nodes.clone(), edges.clone());
    let second = create_graph(nodes, edges);
    assert_eq!(first, second);
    assert_eq!(first.keys(), vec![w, u, v]);
    assert_eq!(first.get(&w).unwrap(), &vec![v, u]);
}

#[test]
fn empty_inputs_give_an_empty_graph() {
    let g = create_graph(vec![], vec![]);
    assert_eq!(g.len(), 0);
    assert!(g.keys().is_empty());
    let g = create_graph(vec![n(0, 0)], vec![]);
    assert_eq!(g.len(), 0);
    assert!(g.get(&n(0, 0)).is_none());
}

#[test]
fn neighbors_follow_edge_order() {
    let (c, a, b, d) = (n(0, 0), n(1, 0), n(2, 0), n(3, 0));
    let g = create_graph(vec![c], vec![e(c, d), e(a, c), e(a, b), e(c, b)]);
    assert_eq!(g.get(&c).unwrap(), &vec![d, a, b]);
    assert!(g.get(&a).is_none());
}

#[test]
fn self_loop_lists_the_node_once_per_edge() {
    let u = n(4, 4);
    let g = create_graph(vec![u], vec![e(u, u)]);
    assert_eq!(g.get(&u).unwrap(), &vec![u]);
}

#[test]
fn repeated_node_gets_one_entry() {
    let (u, v) = (n(0, 0), n(1, 0));
    let g = create_graph(vec![u, v, u], vec![e(u, v)]);
    assert_eq!(g.len(), 2);
    assert_eq!(g.keys(), vec![u, v]);
}

#[test]
fn nodes_are_looked_up_by_value() {
    let g = create_graph(vec![n(0, 0), n(1, 0)], vec![e(n(0, 0), n(1, 0))]);
    assert_eq!(g.get(&Node::new(&Vector::new(0, 0))).unwrap(), &vec![n(1, 0)]);
}
