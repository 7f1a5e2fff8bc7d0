use activation_scheduler::graph::Graph;
use activation_scheduler::graph::reward_nodes;
use activation_scheduler::closure::get_shortest_path;
use activation_scheduler::closure::MetricClosure;
use activation_scheduler::rates::RateCache;
use activation_scheduler::parsing::parse;
use activation_scheduler::parsing::parse_int;
use activation_scheduler::parsing::parse_tuple_int;
use activation_scheduler::parsing::build_graph;
use activation_scheduler::rope::get_new_pos;
use activation_scheduler::rope::get_follower_knot_pos;
use activation_scheduler::ranges::has_overlapping_pairs;
use activation_scheduler::ranges::tuple_int_range_expand;
use activation_scheduler::grid::get_border_points;
use activation_scheduler::priority::get_group_badge_priority;
use activation_scheduler::stacks::process_instructions;

fn line_graph() -> Graph {
    Graph { rates: vec![0, 10, 20], adj: vec![vec![1], vec![0, 2], vec![1]] }
}

#[test]
fn rate_cache_matches_direct_summation() {
    let g = line_graph();
    let (rn, _posn) = reward_nodes(&g);
    assert_eq!(rn, vec![1, 2]);
    let cache = RateCache::build(&g, &rn);
    // direct summation over each subset of the reward-bearing nodes
    let mut expected = Vec::new();
    for mask in 0..4u64 {
        let mut sum = 0u64;
        for p in 0..2 {
            if (mask >> p) & 1 == 1 {
                sum += g.rates[rn[p]];
            }
        }
        expected.push(sum);
    }
    assert_eq!(cache.table, expected);
    assert_eq!(cache.table, vec![0, 10, 20, 30]);
}

#[test]
fn shortest_path_values_and_symmetry() {
    let g = line_graph();
    assert_eq!(get_shortest_path(&g, 0, 0), Some(0));
    assert_eq!(get_shortest_path(&g, 0, 1), Some(1));
    assert_eq!(get_shortest_path(&g, 0, 2), Some(2));
    // symmetric for this undirected graph
    for a in 0..3 {
        for b in 0..3 {
            assert_eq!(get_shortest_path(&g, a, b), get_shortest_path(&g, b, a));
        }
    }
}

#[test]
fn shortest_path_unreachable() {
    let g = Graph { rates: vec![0, 3], adj: vec![vec![0], vec![1]] };
    assert_eq!(get_shortest_path(&g, 0, 1), None);
    assert_eq!(get_shortest_path(&g, 0, 0), Some(0));
}

#[test]
fn metric_closure_symmetric_and_triangular() {
    let g = line_graph();
    let (rn, _posn) = reward_nodes(&g);
    let mc = MetricClosure::build(&g, 0, &rn).unwrap();
    let m = mc.interesting.len();
    assert_eq!(mc.interesting, vec![0, 1, 2]);
    for i in 0..m {
        assert_eq!(mc.dist[i][i], 0);
        for j in 0..m {
            // symmetry for an undirected graph
            assert_eq!(mc.dist[i][j], mc.dist[j][i]);
            for l in 0..m {
                // triangle inequality
                assert!(mc.dist[i][l] <= mc.dist[i][j] + mc.dist[j][l]);
            }
        }
    }
}

#[test]
fn parse_int_values() {
    assert_eq!(parse_int("0"), 0);
    assert_eq!(parse_int("123"), 123);
    assert_eq!(parse_int("-45"), -45);
    assert_eq!(parse_int("+7"), 7);
    assert_eq!(parse_int("2147483647"), 2147483647);
    assert_eq!(parse_int("-2147483648"), -2147483648);
}

#[test]
fn parse_tuple_int_values() {
    assert_eq!(parse_tuple_int("498,4"), (498, 4));
    assert_eq!(parse_tuple_int("-3,7"), (-3, 7));
    assert_eq!(parse_tuple_int("0,-1"), (0, -1));
}

#[test]
fn parse_node_descriptions() {
    let text = "Valve AA has flow rate=0; tunnels lead to valves BB, CC\n\
                Valve BB has flow rate=13; tunnel leads to valve AA\n\
                Valve CC has flow rate=2; tunnels lead to valves AA\n";
    let nodes = parse(text).unwrap();
    assert_eq!(nodes.len(), 3);
    assert_eq!(nodes[0].name, b"AA".to_vec());
    assert_eq!(nodes[0].rate, 0);
    assert_eq!(nodes[0].adjacent, vec![b"BB".to_vec(), b"CC".to_vec()]);
    assert_eq!(nodes[1].name, b"BB".to_vec());
    assert_eq!(nodes[1].rate, 13);
    assert_eq!(nodes[1].adjacent, vec![b"AA".to_vec()]);
    assert_eq!(nodes[2].rate, 2);
}

#[test]
fn parse_rejects_malformed_lines() {
    assert!(parse("Valve AA has flow rate=; tunnels lead to valves BB").is_none());
    assert!(parse("Valve  has flow rate=1; tunnels lead to valves BB").is_none());
    assert!(parse("nonsense").is_none());
    assert!(parse("Valve AA has flow rate=1; tunnels lead to valves BB, ").is_none());
    // the empty text parses to no nodes
    assert_eq!(parse("").unwrap().len(), 0);
}

#[test]
fn build_graph_resolves_names() {
    let text = "Valve AA has flow rate=0; tunnels lead to valves BB, CC\n\
                Valve BB has flow rate=13; tunnel leads to valve AA\n\
                Valve CC has flow rate=2; tunnels lead to valves AA\n";
    let nodes = parse(text).unwrap();
    let (g, start) = build_graph(&nodes).unwrap();
    assert_eq!(start, 0);
    assert_eq!(g.rates, vec![0, 13, 2]);
    assert_eq!(g.adj, vec![vec![1, 2], vec![0], vec![0]]);
}

#[test]
fn build_graph_rejects_unknown_names() {
    let text = "Valve AA has flow rate=0; tunnels lead to valves ZZ\n";
    let nodes = parse(text).unwrap();
    assert!(build_graph(&nodes).is_none());
    let text2 = "Valve BB has flow rate=1; tunnel leads to valve BB\n";
    let nodes2 = parse(text2).unwrap();
    // no start node named AA
    assert!(build_graph(&nodes2).is_none());
}

#[test]
fn end_to_end_from_text() {
    let text = "Valve AA has flow rate=0; tunnels lead to valves BB\n\
                Valve BB has flow rate=10; tunnels lead to valves AA, CC\n\
                Valve CC has flow rate=20; tunnel leads to valve BB\n";
    let nodes = parse(text).unwrap();
    let (g, start) = build_graph(&nodes).unwrap();
    let single =
        activation_scheduler::single::plan_single_agent(&g, start as u64, 5).unwrap();
    assert_eq!(single, 50);
}

#[test]
fn new_pos_moves_one_step() {
    assert_eq!(get_new_pos((3, 4), "L"), (2, 4));
    assert_eq!(get_new_pos((3, 4), "R"), (4, 4));
    assert_eq!(get_new_pos((3, 4), "D"), (3, 3));
    assert_eq!(get_new_pos((3, 4), "U"), (3, 5));
}

#[test]
fn follower_knot_moves() {
    // touching: no move
    assert_eq!(get_follower_knot_pos((1, 1), (0, 0)), (0, 0));
    assert_eq!(get_follower_knot_pos((0, 0), (0, 0)), (0, 0));
    // straight pulls
    assert_eq!(get_follower_knot_pos((2, 0), (0, 0)), (1, 0));
    assert_eq!(get_follower_knot_pos((-2, 0), (0, 0)), (-1, 0));
    assert_eq!(get_follower_knot_pos((0, 2), (0, 0)), (0, 1));
    assert_eq!(get_follower_knot_pos((0, -2), (0, 0)), (0, -1));
    // diagonal pulls
    assert_eq!(get_follower_knot_pos((2, 1), (0, 0)), (1, 1));
    assert_eq!(get_follower_knot_pos((-1, -2), (0, 0)), (-1, -1));
}

#[test]
fn overlapping_pairs() {
    assert!(has_overlapping_pairs(vec![(2, 4), (4, 6)]));
    assert!(has_overlapping_pairs(vec![(2, 8), (3, 7)]));
    assert!(!has_overlapping_pairs(vec![(2, 3), (4, 5)]));
    assert!(!has_overlapping_pairs(vec![(1, 2)]));
    assert!(!has_overlapping_pairs(vec![]));
    assert!(has_overlapping_pairs(vec![(1, 2), (5, 6), (6, 9)]));
}

#[test]
fn range_expansion() {
    assert_eq!(tuple_int_range_expand((1, 5), (3, 5)), vec![(1, 5), (2, 5), (3, 5)]);
    assert_eq!(tuple_int_range_expand((3, 5), (1, 5)), vec![(1, 5), (2, 5), (3, 5)]);
    assert_eq!(tuple_int_range_expand((2, 2), (2, 4)), vec![(2, 2), (2, 3), (2, 4)]);
    assert_eq!(tuple_int_range_expand((2, 4), (2, 2)), vec![(2, 2), (2, 3), (2, 4)]);
    assert_eq!(tuple_int_range_expand((7, 7), (7, 7)), vec![(7, 7)]);
}

#[test]
fn border_points_respect_bounds() {
    assert_eq!(
        get_border_points(&(1, 1), &2, &2),
        vec![(0, 1), (2, 1), (1, 0), (1, 2)]
    );
    assert_eq!(get_border_points(&(0, 0), &2, &2), vec![(1, 0), (0, 1)]);
    assert_eq!(get_border_points(&(2, 2), &2, &2), vec![(1, 2), (2, 1)]);
}

#[test]
fn badge_priority() {
    let a = String::from("abc");
    let b = String::from("cde");
    let c = String::from("cfg");
    assert_eq!(get_group_badge_priority(&a, &b, &c), 3);
    let d = String::from("ZabZ");
    let e = String::from("xZy");
    let f = String::from("qZr");
    assert_eq!(get_group_badge_priority(&d, &e, &f), 52);
}

#[test]
fn crate_moves_keep_order() {
    let mut stacks = vec![vec!['a', 'b'], vec!['c']];
    process_instructions(&mut stacks, vec![(2, 0, 1)]);
    assert_eq!(stacks, vec![vec![], vec!['c', 'a', 'b']]);
    let mut stacks2 = vec![vec!['z', 'n'], vec!['m', 'c', 'd'], vec!['p']];
    process_instructions(&mut stacks2, vec![(1, 1, 0), (3, 0, 2)]);
    assert_eq!(stacks2[1], vec!['m', 'c']);
    assert_eq!(stacks2[2], vec!['p', 'z', 'n', 'd']);
    assert_eq!(stacks2[0], Vec::<char>::new());
    // moving within one stack leaves it unchanged
    let mut stacks3 = vec![vec!['x', 'y', 'z']];
    process_instructions(&mut stacks3, vec![(2, 0, 0)]);
    assert_eq!(stacks3, vec![vec!['x', 'y', 'z']]);
}
