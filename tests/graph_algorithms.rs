
use graph_algos::graph::{Graph, GraphError, Node};
use graph_algos::hypercube::{hamming_weight, initialize_graph, zero_count};
use graph_algos::matching::{generate_bipartite_graph, max_bipartite_matching};
use graph_algos::flow::FlowNetwork;
use graph_algos::shortest::{dial_adj, dijkstra_adj, dijkstra_adj_to, INFINITY};
use graph_algos::textfmt::{next_word, parse_dimacs_gr, parse_edge_list, parse_number, parse_p2p, parse_ss, ParseError};
use graph_algos::weighted::{dial_all, dial_single, dijkstra_all, dijkstra_single, PathError};

fn build(n: usize, edges: &[(usize, usize)]) -> Graph {
    let mut g = Graph::new(n);
    for &(u, v) in edges {
        g.add_edge(u, v).unwrap();
    }
    g
}

fn undirected(n: usize, edges: &[(usize, usize)]) -> Graph {
    let mut g = Graph::new(n);
    for &(u, v) in edges {
        g.add_edge(u, v).unwrap();
        g.add_edge(v, u).unwrap();
    }
    g
}

fn sorted(mut v: Vec<usize>) -> Vec<usize> {
    v.sort();
    v
}

#[test]
fn add_edge_rejects_unknown_nodes() {
    let mut g = Graph::new(3);
    assert_eq!(g.add_edge(0, 3), Err(GraphError::OutOfRange));
    assert_eq!(g.add_edge(5, 1), Err(GraphError::OutOfRange));
    assert_eq!(g.add_edge(0, 2), Ok(()));
    assert_eq!(g.get_n(), 3);
    assert_eq!(g.edge_count(), 1);
    let node = g.get_node(0);
    assert_eq!(node.index, 0);
    assert_eq!(node.edges, vec![2]);
}

#[test]
fn add_node_appends_and_checks() {
    let mut g = Graph::new(2);
    assert_eq!(g.add_node(Node { index: 3, edges: vec![] }), Err(GraphError::OutOfRange));
    assert_eq!(g.add_node(Node { index: 2, edges: vec![5] }), Err(GraphError::OutOfRange));
    assert_eq!(g.add_node(Node { index: 2, edges: vec![0, 2] }), Ok(()));
    assert_eq!(g.get_n(), 3);
    assert_eq!(g.get_node(2).edges, vec![0, 2]);
}

#[test]
fn dfs_from_node_visits_reachable_once() {
    let g = build(6, &[(0, 1), (1, 2), (2, 0), (2, 3), (4, 5)]);
    let order = g.dfs_form_node(0);
    assert_eq!(order[0], 0);
    assert_eq!(sorted(order), vec![0, 1, 2, 3]);
    assert_eq!(sorted(g.dfs_form_node(4)), vec![4, 5]);
    assert_eq!(g.dfs_form_node(3), vec![3]);
}

#[test]
fn bfs_from_node_visits_in_layers() {
    let g = build(6, &[(0, 1), (0, 2), (1, 3), (2, 3), (3, 4)]);
    assert_eq!(g.bfs_from_node(0), vec![0, 1, 2, 3, 4]);
    assert_eq!(g.bfs_from_node(3), vec![3, 4]);
}

#[test]
fn dfs_orders_follow_stack_discipline() {
    let g = build(4, &[(0, 1), (0, 2), (1, 3)]);
    assert_eq!(g.dfs_form_node(0), vec![0, 2, 1, 3]);
}

#[test]
fn whole_graph_traversals_are_permutations() {
    let g = build(7, &[(0, 1), (1, 2), (3, 4), (5, 3), (6, 6)]);
    assert_eq!(sorted(g.dfs()), (0..7).collect::<Vec<_>>());
    assert_eq!(sorted(g.bfs()), (0..7).collect::<Vec<_>>());
    assert_eq!(g.bfs(), vec![0, 1, 2, 3, 4, 5, 6]);
}

#[test]
fn spanning_forest_has_one_edge_per_non_root() {
    // roots in index order: 0 (reaches 1, 2), 3 (reaches 4), 5 (reaches 3, 4 but they are taken), 6
    let g = build(7, &[(0, 1), (1, 2), (0, 2), (3, 4), (5, 3)]);
    for (order, tree) in [g.dfs_with_tree(), g.bfs_with_tree()] {
        assert_eq!(sorted(order), (0..7).collect::<Vec<_>>());
        assert_eq!(tree.get_n(), 7);
        assert_eq!(tree.edge_count(), 7 - 4);
        let mut has_parent = vec![false; 7];
        for u in 0..7 {
            for v in tree.get_node(u).edges {
                assert!(g.get_node(u).edges.contains(&v));
                assert!(!has_parent[v]);
                has_parent[v] = true;
            }
        }
        assert_eq!(has_parent, vec![false, true, true, false, true, false, false]);
    }
}

#[test]
fn topological_sort_of_diamond() {
    // edges 1->2, 1->3, 2->4, 3->4 written with nodes 0..4
    let g = build(4, &[(0, 1), (0, 2), (1, 3), (2, 3)]);
    let order = g.topological_sort().expect("a DAG has an order");
    assert!(order == vec![1, 2, 3, 4] || order == vec![1, 3, 2, 4]);
    for u in 0..4 {
        for v in g.get_node(u).edges {
            assert!(order[u] < order[v]);
        }
    }
}

#[test]
fn topological_sort_rejects_cycles() {
    assert_eq!(build(2, &[(0, 1), (1, 0)]).topological_sort(), None);
    assert_eq!(build(3, &[(0, 1), (1, 2), (2, 2)]).topological_sort(), None);
    assert_eq!(build(0, &[]).topological_sort(), Some(vec![]));
}

#[test]
fn strongly_connected_components_partition_nodes() {
    let g = build(8, &[(0, 1), (1, 2), (2, 0), (2, 3), (3, 4), (4, 5), (5, 3), (6, 5), (6, 7), (7, 6)]);
    let comps = g.find_strongly_connected_components();
    let mut seen = vec![0; 8];
    for c in &comps {
        for &x in c {
            seen[x] += 1;
        }
    }
    assert_eq!(seen, vec![1; 8]);
    let mut sets: Vec<Vec<usize>> = comps.into_iter().map(sorted).collect();
    sets.sort();
    assert_eq!(sets, vec![vec![0, 1, 2], vec![3, 4, 5], vec![6, 7]]);
}

#[test]
fn transpose_reverses_edges() {
    let g = build(3, &[(0, 1), (0, 2), (2, 1)]);
    let t = g.transpose();
    assert_eq!(t.get_node(1).edges, vec![0, 2]);
    assert_eq!(t.get_node(2).edges, vec![0]);
    assert_eq!(t.get_node(0).edges, Vec::<usize>::new());
}

#[test]
fn bipartition_of_even_cycle() {
    let g = undirected(6, &[(0, 1), (1, 2), (2, 3), (3, 0), (4, 5)]);
    let (a, b) = g.get_bipartition().expect("an even cycle splits");
    assert_eq!(a, vec![0, 2, 4]);
    assert_eq!(b, vec![1, 3, 5]);
    for u in 0..6 {
        for v in g.get_node(u).edges {
            assert_ne!(a.contains(&u), a.contains(&v));
        }
    }
}

#[test]
fn triangle_is_not_bipartite() {
    let g = undirected(3, &[(0, 1), (1, 2), (2, 0)]);
    assert_eq!(g.get_bipartition(), None);
    let g = undirected(5, &[(0, 1), (3, 4), (4, 2), (2, 3)]);
    assert_eq!(g.get_bipartition(), None);
}

fn weighted(n: usize, edges: &[(usize, usize, u64)]) -> (petgraph::Graph<(), u64, petgraph::Undirected>, Vec<Vec<(usize, u64)>>) {
    let mut pg = petgraph::Graph::new_undirected();
    let nodes: Vec<_> = (0..n).map(|_| pg.add_node(())).collect();
    let mut adj = vec![Vec::new(); n];
    for &(u, v, w) in edges {
        pg.add_edge(nodes[u], nodes[v], w);
        adj[u].push((v, w));
        adj[v].push((u, w));
    }
    (pg, adj)
}

const ROADS: [(usize, usize, u64); 9] = [
    (0, 1, 4), (0, 2, 1), (2, 1, 2), (1, 3, 1), (2, 3, 5), (3, 4, 3), (4, 5, 2), (3, 5, 7), (6, 6, 1),
];

#[test]
fn dijkstra_distances_on_small_roads() {
    let (pg, adj) = weighted(8, &ROADS);
    let d = dijkstra_all(&pg, 0).unwrap();
    assert_eq!(d, vec![0, 3, 1, 4, 7, 9, INFINITY, INFINITY]);
    assert_eq!(dijkstra_adj(&adj, 0), d);
    assert_eq!(dijkstra_single(&pg, 0, 5), Ok(9));
    assert_eq!(dijkstra_single(&pg, 0, 6), Ok(INFINITY));
    assert_eq!(dijkstra_all(&pg, 8), Err(PathError::NodeOutOfRange));
}

#[test]
fn dial_matches_dijkstra() {
    let (pg, adj) = weighted(8, &ROADS);
    for s in 0..8 {
        let dj = dijkstra_all(&pg, s).unwrap();
        let dl = dial_all(&pg, s, 7).unwrap();
        assert_eq!(dl[s], Some(0));
        for v in 0..8 {
            match dl[v] {
                Some(x) => assert_eq!(x as u64, dj[v]),
                None => assert_eq!(dj[v], INFINITY),
            }
        }
        for u in 0..8 {
            for &(v, w) in &adj[u] {
                if dj[u] != INFINITY {
                    assert!(dj[v] <= dj[u] + w);
                }
            }
        }
    }
    assert_eq!(dial_single(&pg, 0, 4, 7), Ok(Some(7)));
    assert_eq!(dial_single(&pg, 0, 7, 7), Ok(None));
}

#[test]
fn dial_rejects_heavy_edges() {
    let (pg, adj) = weighted(3, &[(0, 1, 5), (1, 2, 9)]);
    assert_eq!(dial_all(&pg, 0, 8), Err(PathError::WeightAboveBound));
    assert_eq!(dial_adj(&adj, 0, 8), None);
    assert_eq!(dial_all(&pg, 0, usize::MAX), Err(PathError::BoundTooLarge));
    assert_eq!(dial_all(&pg, 3, 9), Err(PathError::NodeOutOfRange));
    assert_eq!(dial_all(&pg, 0, 9).unwrap(), vec![Some(0), Some(5), Some(14)]);
}

fn classic_network() -> FlowNetwork {
    // the textbook network whose maximum flow is 23
    let mut g = FlowNetwork::new(6);
    for &(u, v, c) in &[(0, 1, 16), (0, 2, 13), (2, 1, 4), (1, 3, 12), (3, 2, 9), (2, 4, 14), (4, 3, 7), (3, 5, 20), (4, 5, 4)] {
        g.add_edge(u, v, c).unwrap();
    }
    g
}

fn check_flow(g: &FlowNetwork, s: usize, t: usize) -> i64 {
    let n = g.get_n();
    let mut excess = vec![0i64; n];
    for e in (0..g.edge_count()).step_by(2) {
        let f = g.edge(e);
        assert!(0 <= f.flow && f.flow <= f.cap);
        assert_eq!(g.edge(e + 1).flow, -f.flow);
        excess[f.from] -= f.flow;
        excess[f.to] += f.flow;
    }
    for v in 0..n {
        if v != s && v != t {
            assert_eq!(excess[v], 0);
        }
    }
    excess[t]
}

#[test]
fn edmonds_karp_and_dinic_agree_on_classic_network() {
    let mut a = classic_network();
    let (fa, pa) = a.edmonds_karp(0, 5).unwrap();
    let mut b = classic_network();
    let (fb, pb) = b.dinic(0, 5).unwrap();
    assert_eq!(fa, 23);
    assert_eq!(fb, 23);
    assert!(pa >= 1 && pb >= 1);
    assert_eq!(check_flow(&a, 0, 5), 23);
    assert_eq!(check_flow(&b, 0, 5), 23);
}

#[test]
fn flow_rejects_source_equal_sink() {
    let mut g = classic_network();
    assert_eq!(g.edmonds_karp(2, 2), None);
    assert_eq!(g.dinic(3, 3), None);
    assert_eq!(g.add_edge(0, 9, 1), Err(GraphError::OutOfRange));
}

#[test]
fn hypercube_flows_agree() {
    let g = initialize_graph(4);
    assert_eq!(g.get_n(), 16);
    for e in (0..g.edge_count()).step_by(2) {
        let f = g.edge(e);
        assert!(hamming_weight(f.from) < hamming_weight(f.to));
        assert!(f.cap >= 1 && f.cap <= 16);
    }
    let mut a = initialize_graph(3);
    let mut b = FlowNetwork::new(8);
    for e in (0..a.edge_count()).step_by(2) {
        let f = a.edge(e);
        b.add_edge(f.from, f.to, f.cap as u32).unwrap();
    }
    let (fa, _) = a.edmonds_karp(0, 7).unwrap();
    let (fb, _) = b.dinic(0, 7).unwrap();
    assert_eq!(fa, fb);
    assert_eq!(check_flow(&a, 0, 7) as u128, fa);
}

#[test]
fn bit_counts() {
    assert_eq!(hamming_weight(0b1011), 3);
    assert_eq!(hamming_weight(0), 0);
    assert_eq!(zero_count(0b1011, 5), 2);
    assert_eq!(zero_count(7, 3), 0);
}

#[test]
fn matching_finds_maximum() {
    // left 0 likes 0,1; left 1 likes 0; left 2 likes 1,2; left 3 likes 2
    let adj = vec![vec![0, 1], vec![0], vec![1, 2], vec![2]];
    let m = max_bipartite_matching(&adj, 3).unwrap();
    assert_eq!(m.count, 3);
    assert_eq!(m.count, m.pairs.len());
    let mut rights: Vec<usize> = m.pairs.iter().map(|p| p.1).collect();
    rights.sort();
    rights.dedup();
    assert_eq!(rights.len(), 3);
    for &(u, v) in &m.pairs {
        assert!(adj[u].contains(&v));
    }
    assert!(max_bipartite_matching(&vec![vec![3]], 3).is_none());
}

#[test]
fn random_bipartite_graph_matches() {
    let adj = generate_bipartite_graph(4, 3);
    assert_eq!(adj.len(), 16);
    for row in &adj {
        assert_eq!(row.len(), 3);
        assert!(row.iter().all(|&v| v < 16));
    }
    let m = max_bipartite_matching(&adj, 16).unwrap();
    assert_eq!(m.count, m.pairs.len());
    assert!(m.count <= 16 && m.count >= 3);
    let full = generate_bipartite_graph(2, 9);
    assert!(full.iter().all(|row| row.len() == 4));
    assert_eq!(max_bipartite_matching(&full, 4).unwrap().count, 4);
}

#[test]
fn edge_list_text_builds_graph() {
    let g = parse_edge_list(&b"D\n4\n4\n1 2\n1 3\n2 4\n3 4\n".to_vec()).unwrap();
    assert_eq!(g.get_n(), 4);
    assert_eq!(g.get_node(0).edges, vec![1, 2]);
    assert_eq!(g.get_node(3).edges, Vec::<usize>::new());
    let u = parse_edge_list(&b"U\n3\n1\n1 3\n".to_vec()).unwrap();
    assert_eq!(u.get_node(0).edges, vec![2]);
    assert_eq!(u.get_node(2).edges, vec![0]);
    assert_eq!(parse_edge_list(&b"X\n3\n0\n".to_vec()).err(), Some(ParseError::BadKind));
    assert_eq!(parse_edge_list(&b"D\n3\n1\n1 4\n".to_vec()).err(), Some(ParseError::NodeOutOfRange));
    assert_eq!(parse_edge_list(&b"D\n3\n2\n1 2\n".to_vec()).err(), Some(ParseError::BadNumber));
    assert_eq!(parse_edge_list(&b"D\n3\nx\n".to_vec()).err(), Some(ParseError::BadNumber));
}

#[test]
fn dimacs_files_read() {
    let gr = b"c sample\nc more\np sp 3 2\na 1 2 7\nc inside\na 2 3 4\n".to_vec();
    let (n, arcs) = parse_dimacs_gr(&gr).unwrap();
    assert_eq!(n, 3);
    assert_eq!(arcs, vec![(0, 1, 7), (1, 2, 4)]);
    assert_eq!(parse_dimacs_gr(&b"p sp 2 1\na 1 3 1\n".to_vec()).err(), Some(ParseError::NodeOutOfRange));
    assert_eq!(parse_dimacs_gr(&b"x\n".to_vec()).err(), Some(ParseError::BadLine));
    let ss = parse_ss(&b"c x\np aux sp ss 2\ns 1\ns 3\n".to_vec()).unwrap();
    assert_eq!(ss.num_sources, 2);
    assert_eq!(ss.sources, vec![0, 2]);
    let p2p = parse_p2p(&b"p aux sp p2p 1\nq 2 3\n".to_vec()).unwrap();
    assert_eq!(p2p.num_pairs, 1);
    assert_eq!(p2p.pairs, vec![(1, 2)]);
    assert!(parse_ss(&b"p aux sp p2p 1\n".to_vec()).is_err());
}

#[test]
fn number_reader_is_exact() {
    let text = b"  123 18446744073709551615 18446744073709551616 1x".to_vec();
    let (s, e) = next_word(&text, 0);
    assert_eq!((s, e), (2, 5));
    assert_eq!(parse_number(&text, s, e), Some(123));
    let (s, e) = next_word(&text, e);
    assert_eq!(parse_number(&text, s, e), Some(u64::MAX));
    let (s, e) = next_word(&text, e);
    assert_eq!(parse_number(&text, s, e), None);
    let (s, e) = next_word(&text, e);
    assert_eq!(parse_number(&text, s, e), None);
    assert_eq!(next_word(&text, text.len()), (text.len(), text.len()));
}

#[test]
fn dijkstra_early_exit_matches_full_run() {
    let (_, adj) = weighted(8, &ROADS);
    for s in 0..8 {
        let all = dijkstra_adj(&adj, s);
        for t in 0..8 {
            assert_eq!(dijkstra_adj_to(&adj, s, t), all[t]);
        }
    }
    assert_eq!(dijkstra_adj_to(&adj, 6, 6), 0);
    assert_eq!(dijkstra_adj_to(&adj, 0, 7), INFINITY);
}

#[test]
fn matching_phases_reach_maximum_on_larger_graphs() {
    // a chain of preferences where greedy choices must be undone
    let n = 40;
    let adj: Vec<Vec<usize>> = (0..n).map(|u| if u + 1 < n { vec![u, u + 1] } else { vec![u] }).collect();
    let m = max_bipartite_matching(&adj, n).unwrap();
    assert_eq!(m.count, n);
    let adj2: Vec<Vec<usize>> = (0..n).map(|u| vec![u / 2]).collect();
    assert_eq!(max_bipartite_matching(&adj2, n).unwrap().count, n / 2);
}

#[test]
fn bipartition_puts_component_source_first() {
    let g = undirected(4, &[(0, 1), (1, 2), (2, 3), (3, 0)]);
    assert_eq!(g.get_bipartition(), Some((vec![0, 2], vec![1, 3])));
}

#[test]
fn scc_of_two_cycle_with_tail() {
    let g = build(3, &[(0, 1), (1, 0), (1, 2)]);
    let c = g.find_strongly_connected_components();
    assert_eq!(c.len(), 2);
    assert_eq!(sorted(c[0].clone()), vec![0, 1]);
    assert_eq!(c[1], vec![2]);
}

#[test]
fn traversal_blocks_follow_roots() {
    let g = build(6, &[(3, 0), (1, 2), (4, 5), (5, 4)]);
    assert_eq!(g.dfs(), vec![0, 1, 2, 3, 4, 5]);
    assert_eq!(g.bfs(), vec![0, 1, 2, 3, 4, 5]);
    let (_, tree) = g.bfs_with_tree();
    assert_eq!(tree.edge_count(), 2);
}

#[test]
fn transpose_keeps_parallel_edges() {
    let g = build(2, &[(0, 1), (0, 1)]);
    let t = g.transpose();
    assert_eq!(t.get_node(1).edges, vec![0, 0]);
}

#[test]
fn hypercube_has_every_cube_edge() {
    let g = initialize_graph(3);
    let mut count = 0;
    for i in 0..8usize {
        for b in 0..3 {
            let j = i ^ (1 << b);
            if hamming_weight(i) < hamming_weight(j) {
                count += 1;
            }
        }
    }
    assert_eq!(g.edge_count(), 2 * count);
}
