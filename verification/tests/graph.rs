use my_algo::graph::adjacency_list::{LinkedGraph, VertexIndex};
use my_algo::graph::path::Path;

fn print_path(graph: &LinkedGraph<i32, i32>, mut path: Path) -> Vec<i32> {
    let mut values = Vec::new();
    while let Some(v) = path.next() {
        let value = *graph.get_vertex(&v).unwrap();
        println!("{} ", value);
        values.push(value);
    }
    println!();
    values
}

fn describe(graph: &LinkedGraph<i32, i32>) -> String {
    let mut buf = format!("V: {} E: {}\n", graph.vertex_num(), graph.edge_num());
    let mut vertexs = graph.vertexs();
    while let Some(src) = vertexs.next() {
        buf.push_str(&format!("{}: ", graph.get_vertex(&src).unwrap()));
        let mut adj = graph.adj_iter(&src);
        while let Some((dst, _)) = adj.next() {
            buf.push_str(&format!("{} ", graph.get_vertex(&dst).unwrap()));
        }
        buf.push('\n');
    }
    buf
}

#[test]
fn test_graph_basic() {
    let mut graph = LinkedGraph::default();
    // empty
    assert_eq!(graph.vertex_num(), 0);
    assert_eq!(graph.edge_num(), 0);

    let mut indexs = Vec::new();
    indexs.push(graph.push_vertex(0));
    indexs.push(graph.push_vertex(1));
    indexs.push(graph.push_vertex(2));
    indexs.push(graph.push_vertex(4));
    graph.add_edge(&indexs[0], &indexs[1], 0).unwrap();
    graph.add_edge(&indexs[1], &indexs[0], 0).unwrap();
    graph.add_undirected_edge(&indexs[1], &indexs[3], 1);
    graph.add_undirected_edge(&indexs[2], &indexs[3], 2);
    graph.add_undirected_edge(&indexs[2], &indexs[0], 3);
    graph.add_undirected_edge(&indexs[0], &indexs[3], 4);
    assert_eq!(graph.vertex_num(), 4);
    assert_eq!(graph.edge_num(), 10);

    for v in graph.dfs(&indexs[0]) {
        println!("{}", graph.get_vertex(&v).unwrap());
    }
    for v in graph.bfs(&indexs[0]) {
        println!("{}", graph.get_vertex(&v).unwrap());
    }
    println!("{}", describe(&graph));
    let paths = graph.dfs_paths(&indexs[2]);
    println!("path to {}: ", graph.get_vertex(&indexs[1]).unwrap());
    print_path(&graph, paths.path_to(&indexs[1]));

    let paths = graph.bfs_paths(&indexs[2]);
    println!("path to {}: ", graph.get_vertex(&indexs[1]).unwrap());
    print_path(&graph, paths.path_to(&indexs[1]));

    println!("{}", describe(&graph.reversed()));

    let cycle = graph.find_one_cycle();
    assert!(cycle.is_some());
    println!("cycle: ");
    print_path(&graph, cycle.unwrap());
}

#[test]
fn test_directed_graph() {
    let mut graph = LinkedGraph::default();
    let mut idxs = Vec::new();
    for i in 0..5 {
        idxs.push(graph.push_vertex(i));
    }

    graph.add_edge(&idxs[0], &idxs[1], 0).unwrap();
    graph.add_edge(&idxs[1], &idxs[2], 1).unwrap();
    graph.add_edge(&idxs[1], &idxs[3], 2).unwrap();
    graph.add_edge(&idxs[2], &idxs[4], 3).unwrap();
    graph.add_edge(&idxs[3], &idxs[4], 4).unwrap();
    graph.add_edge(&idxs[3], &idxs[2], 5).unwrap();

    assert!(graph.find_one_cycle().is_none());
    assert_eq!(graph.scc().len(), 5);
    println!("Topological: ");
    let mut topo = graph.topological();
    while let Some(v) = topo.next() {
        println!("{} ", v)
    }
    println!();

    graph.add_edge(&idxs[4], &idxs[0], 6).unwrap();
    let cycle = graph.find_one_cycle();
    assert!(cycle.is_some());
    println!("cycle: ");
    print_path(&graph, cycle.unwrap());

    graph.add_edge(&idxs[2], &idxs[0], 7).unwrap();
    let cycle = graph.find_one_cycle();
    assert!(cycle.is_some());
    println!("cycle: ");
    print_path(&graph, cycle.unwrap());

    // SCC
    println!("SCC: ");
    let scc = graph.scc();
    let mut vertexs = graph.vertexs();
    while let Some(v) = vertexs.next() {
        println!("{}(in {}) ", graph.get_vertex(&v).unwrap(), scc.id(&v).unwrap());
    }
    println!();
}

fn sample_dag() -> (LinkedGraph<i32, i32>, Vec<VertexIndex>) {
    let mut graph = LinkedGraph::new();
    let mut idxs = Vec::new();
    for i in 0..5 {
        idxs.push(graph.push_vertex(i));
    }
    graph.add_edge(&idxs[0], &idxs[1], 0).unwrap();
    graph.add_edge(&idxs[1], &idxs[2], 1).unwrap();
    graph.add_edge(&idxs[1], &idxs[3], 2).unwrap();
    graph.add_edge(&idxs[2], &idxs[4], 3).unwrap();
    graph.add_edge(&idxs[3], &idxs[4], 4).unwrap();
    graph.add_edge(&idxs[3], &idxs[2], 5).unwrap();
    (graph, idxs)
}

#[test]
fn graph_topological_order_respects_edges() {
    let (graph, _) = sample_dag();
    let mut topo = graph.topological();
    let mut order = Vec::new();
    while let Some(v) = topo.next() {
        order.push(*v);
    }
    assert_eq!(order, vec![0, 1, 3, 2, 4]);
}

#[test]
fn graph_cycle_blocks_topological_order() {
    let (mut graph, idxs) = sample_dag();
    graph.add_edge(&idxs[4], &idxs[0], 6).unwrap();
    let mut topo = graph.topological();
    assert_eq!(topo.next(), None);
    let cycle = graph.find_one_cycle().unwrap();
    let values = print_path(&graph, cycle);
    assert!(values.len() >= 2);
    assert_eq!(values[0], values[values.len() - 1]);
}

#[test]
fn graph_scc_merges_cycle() {
    let (mut graph, idxs) = sample_dag();
    graph.add_edge(&idxs[4], &idxs[1], 6).unwrap();
    let scc = graph.scc();
    assert_eq!(scc.len(), 2);
    assert!(scc.is_strongly_connected(&idxs[1], &idxs[4]));
    assert!(scc.is_strongly_connected(&idxs[2], &idxs[3]));
    assert!(!scc.is_strongly_connected(&idxs[0], &idxs[1]));
    assert!(!scc.is_empty());
    assert_eq!(scc.id(&VertexIndex { idx: 9 }), None);
}

#[test]
fn graph_search_reaches_forward_only() {
    let (graph, idxs) = sample_dag();
    let from_two: Vec<usize> = graph.dfs(&idxs[2]).iter().map(|v| v.index()).collect();
    assert_eq!(from_two, vec![2, 4]);
    let from_one: Vec<usize> = graph.bfs(&idxs[1]).iter().map(|v| v.index()).collect();
    assert_eq!(from_one, vec![1, 3, 2, 4]);
    let outside = VertexIndex { idx: 7 };
    assert_eq!(graph.dfs(&outside), vec![outside]);
    let paths = graph.bfs_paths(&idxs[0]);
    assert!(paths.has_path_to(&idxs[4]));
    assert!(!graph.dfs_paths(&idxs[4]).has_path_to(&idxs[0]));
    assert_eq!(print_path(&graph, paths.path_to(&idxs[4])).len(), 4);
}

#[test]
fn graph_reversed_turns_edges() {
    let (graph, idxs) = sample_dag();
    let rev = graph.reversed();
    assert_eq!(rev.vertex_num(), 5);
    assert_eq!(rev.edge_num(), 6);
    let into_four: Vec<usize> = rev.dfs(&idxs[4]).iter().map(|v| v.index()).collect();
    assert_eq!(into_four, vec![4, 3, 1, 0, 2]);
    assert_eq!(graph.degree(&idxs[1]), 2);
    assert_eq!(graph.max_degree(), 2);
}

#[test]
fn graph_bfs_path_is_shortest() {
    let mut graph = LinkedGraph::new();
    let mut idxs = Vec::new();
    for i in 0..6 {
        idxs.push(graph.push_vertex(i));
    }
    graph.add_edge(&idxs[0], &idxs[5], 0).unwrap();
    graph.add_edge(&idxs[0], &idxs[1], 0).unwrap();
    graph.add_edge(&idxs[1], &idxs[2], 0).unwrap();
    graph.add_edge(&idxs[2], &idxs[3], 0).unwrap();
    graph.add_edge(&idxs[3], &idxs[4], 0).unwrap();
    graph.add_edge(&idxs[4], &idxs[5], 0).unwrap();
    let bfs = graph.bfs_paths(&idxs[0]);
    assert_eq!(print_path(&graph, bfs.path_to(&idxs[5])), vec![0, 5]);
    let dfs = graph.dfs_paths(&idxs[0]);
    assert_eq!(print_path(&graph, dfs.path_to(&idxs[5])), vec![0, 1, 2, 3, 4, 5]);
    assert!(graph.is_well_formed());
    graph.add_edge(&idxs[2], &VertexIndex { idx: 9 }, 0).unwrap();
    assert!(!graph.is_well_formed());
}

#[test]
fn graph_cycle_and_paths_repeat_no_vertex() {
    let (mut graph, idxs) = sample_dag();
    graph.add_edge(&idxs[4], &idxs[0], 6).unwrap();
    let values = print_path(&graph, graph.find_one_cycle().unwrap());
    let body = &values[..values.len() - 1];
    for i in 0..body.len() {
        for j in i + 1..body.len() {
            assert_ne!(body[i], body[j]);
        }
    }
    let paths = graph.dfs_paths(&idxs[0]);
    assert_eq!(print_path(&graph, paths.path_to(&idxs[0])), vec![0]);
    let to_four = print_path(&graph, paths.path_to(&idxs[4]));
    for i in 0..to_four.len() {
        for j in i + 1..to_four.len() {
            assert_ne!(to_four[i], to_four[j]);
        }
    }
}
