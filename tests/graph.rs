use toolbox::graph::{Direction, EdgeIndex, Graph, VertexIndex};

fn walk(g: &Graph<char, ()>, v: VertexIndex, dir: Direction) -> Vec<char> {
    let other = match dir {
        Direction::Outgoing => Direction::Incoming,
        Direction::Incoming => Direction::Outgoing,
    };
    g.adjacent_edges(v, dir)
        .into_iter()
        .map(|e| {
            let edge = g.get_edge(e).unwrap();
            g.get_vertex(edge.vertex(other)).unwrap().data
        })
        .collect()
}

fn walk_by_links(g: &Graph<char, ()>, v: VertexIndex, dir: Direction) -> Vec<EdgeIndex> {
    let mut out = Vec::new();
    let mut cur = g.get_vertex(v).unwrap().edge(dir);
    while let Some(e) = g.get_edge(cur) {
        out.push(cur);
        cur = e.next_edge(dir);
    }
    out
}

#[test]
fn direction_index() {
    assert_eq!(Direction::Outgoing.index(), 0);
    assert_eq!(Direction::Incoming.index(), 1);
}

#[test]
fn seven_vertex_graph_walks() {
    let mut g: Graph<char, ()> = Graph::with_capacity(32);
    let a = g.add_vertex('a');
    let mut others = Vec::new();
    for c in ['b', 'c', 'd', 'e', 'f', 'g'] {
        let v = g.add_vertex(c);
        g.add_edge(a, v, ());
        others.push(v);
    }
    let b = others[0];
    let c = others[1];
    let f = others[4];
    g.add_edge(b, f, ());
    g.add_edge(f, c, ());
    assert_eq!(walk(&g, a, Direction::Outgoing), vec!['g', 'f', 'e', 'd', 'c', 'b']);
    assert_eq!(walk(&g, f, Direction::Incoming), vec!['b', 'a']);
    assert_eq!(walk(&g, c, Direction::Incoming), vec!['f', 'a']);
    assert_eq!(walk_by_links(&g, a, Direction::Outgoing), g.adjacent_edges(a, Direction::Outgoing));
    assert_eq!(g.vertices().len(), 7);
    assert_eq!(g.edges().len(), 8);
}

#[test]
fn new_edge_heads_both_lists() {
    let mut g: Graph<u32, &str> = Graph::with_capacity(4);
    let a = g.add_vertex(1);
    let b = g.add_vertex(2);
    let e = g.add_edge(a, b, "ab");
    let edge = g.get_edge(e).unwrap();
    assert_eq!(*edge.data(), "ab");
    assert_eq!(edge.vertex(Direction::Outgoing), a);
    assert_eq!(edge.vertex(Direction::Incoming), b);
    assert_eq!(g.get_vertex(a).unwrap().edge(Direction::Outgoing), e);
    assert_eq!(g.get_vertex(b).unwrap().edge(Direction::Incoming), e);
    assert_eq!(g.adjacent_edges(a, Direction::Outgoing), vec![e]);
    assert_eq!(g.adjacent_edges(b, Direction::Incoming), vec![e]);
    assert!(g.adjacent_edges(a, Direction::Incoming).is_empty());
    assert!(g.adjacent_edges(b, Direction::Outgoing).is_empty());
}

#[test]
fn outgoing_list_is_newest_first() {
    let mut g: Graph<u32, u32> = Graph::with_capacity(4);
    let a = g.add_vertex(0);
    let b1 = g.add_vertex(1);
    let b2 = g.add_vertex(2);
    let b3 = g.add_vertex(3);
    let e1 = g.add_edge(a, b1, 10);
    let e2 = g.add_edge(a, b2, 20);
    let e3 = g.add_edge(a, b3, 30);
    assert_eq!(g.adjacent_edges(a, Direction::Outgoing), vec![e3, e2, e1]);
    let ends: Vec<VertexIndex> = g
        .adjacent_edges(a, Direction::Outgoing)
        .into_iter()
        .map(|e| g.get_edge(e).unwrap().vertex(Direction::Incoming))
        .collect();
    assert_eq!(ends, vec![b3, b2, b1]);
    let e = g.get_edge(e2).unwrap();
    assert_eq!(e.next_edge(Direction::Outgoing), e1);
}

#[test]
fn self_loop_sits_in_both_lists() {
    let mut g: Graph<u8, ()> = Graph::with_capacity(2);
    let a = g.add_vertex(7);
    let e = g.add_edge(a, a, ());
    assert_eq!(g.adjacent_edges(a, Direction::Outgoing), vec![e]);
    assert_eq!(g.adjacent_edges(a, Direction::Incoming), vec![e]);
}

#[test]
fn graph_grows_past_initial_capacity() {
    let mut g: Graph<u32, u32> = Graph::with_capacity(1);
    let hub = g.add_vertex(0);
    let mut edges = Vec::new();
    for i in 1..50 {
        let v = g.add_vertex(i);
        edges.push(g.add_edge(hub, v, i));
    }
    edges.reverse();
    assert_eq!(g.adjacent_edges(hub, Direction::Outgoing), edges);
    assert_eq!(g.vertices().len(), 50);
    let data: Vec<u32> = g.vertices().into_iter().map(|v| v.data).collect();
    assert_eq!(data, (0..50).collect::<Vec<u32>>());
}

#[test]
fn graph_slot_counts() {
    let mut g: Graph<u8, u8> = Graph::with_capacity(10);
    assert_eq!(g.vertex_capacity(), 16);
    assert_eq!(g.edge_capacity(), 20);
    assert!(g.vertices().is_empty());
    assert!(g.edges().is_empty());
    let a = g.add_vertex(1);
    let b = g.add_vertex(2);
    assert_eq!(g.vertices().len(), 2);
    g.add_edge(a, b, 3);
    assert_eq!(g.edges().len(), 1);
    assert_eq!(g.vertices().len(), 2);
    let empty = g.get_vertex(a).unwrap().edge(Direction::Incoming);
    assert!(g.get_edge(empty).is_none());
}
