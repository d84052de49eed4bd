use descriptive_quotients::dictionary::SATEncodingDictionary;
use descriptive_quotients::encoding::{
    encode_problem, EdgeEncoding, Formula, HighLevelEncoding, QuotientGraphEncoding, SATEncoding,
};
use descriptive_quotients::graph::{Graph, GraphError};
use descriptive_quotients::quotient::QuotientGraph;

fn path_with_fake_orbits() -> Result<(Graph, QuotientGraph), GraphError> {
    //0-1-2-3, where 1 and 2 are in the same (fake) orbit.
    let mut graph = Graph::new_ordered(4);
    graph.add_edge(0, 1)?;
    graph.add_edge(1, 2)?;
    graph.add_edge(2, 3)?;
    let colors = vec![1, 2, 2, 3];
    graph.set_colours(&colors)?;

    // Not the actual orbits, but used to check for non-descriptiveness.
    let fake_orbits = vec![0, 1, 1, 3];
    let quotient = QuotientGraph::from_graph_orbits(&graph, fake_orbits);
    Ok((graph, quotient))
}

fn expected_nontrivial() -> Formula {
    vec![
        // vertex 0 in orbit 0
        vec![1],
        // Exactly one of 1,2 in orbit 1
        vec![-2, -3],
        vec![2, 3],
        // vertex 3 in orbit 3
        vec![4],
        // can't pick both 0 in 0 and 2 in 1
        vec![-1, -3],
        // can't pick both 2 in 1 and 0 in 0
        vec![-3, -1],
        // can't pick both 1 in 1 and 3 in 3
        vec![-2, -4],
        // can't pick both 3 in 3 and 1 in 1
        vec![-4, -2],
    ]
}

fn trivial_case() -> Result<bool, GraphError> {
    // 0 -- 1 -- 2 where 0 and 2 are in the same orbit
    let mut graph = Graph::new_ordered(3);
    graph.add_arc(0, 1)?;
    graph.add_arc(2, 1)?;
    let orbits = vec![0, 1, 0];
    let quotient_graph = QuotientGraph::from_graph_orbits(&graph, orbits);

    let formula = encode_problem(&quotient_graph, &graph);
    Ok(formula.is_none())
}

#[test]
fn encoding_test_encode_problem_trivial() -> Result<(), GraphError> {
    assert!(trivial_case()?);
    Ok(())
}

#[test]
fn mod_test_encode_problem_trivial() -> Result<(), GraphError> {
    assert!(trivial_case()?);
    Ok(())
}

#[test]
fn encoding_test_encode_problem_nontrivial() -> Result<(), GraphError> {
    let (graph, quotient) = path_with_fake_orbits()?;
    let expected = expected_nontrivial();
    let formula = encode_problem(&quotient, &graph);
    assert!(formula.is_some());
    assert!(formula
        .unwrap()
        .0
        .into_iter()
        .zip(expected.into_iter())
        .all(|(fst, snd)| fst == snd));
    Ok(())
}

#[test]
fn mod_test_encode_problem_nontrivial() -> Result<(), GraphError> {
    let (graph, quotient) = path_with_fake_orbits()?;
    let expected = expected_nontrivial();
    let formula = encode_problem(&quotient, &graph);
    assert!(formula.is_some());
    assert!(formula
        .unwrap()
        .0
        .into_iter()
        .zip(expected.into_iter())
        .all(|(fst, snd)| fst == snd));
    Ok(())
}

#[test]
fn scenario_path_with_fake_orbits_has_eight_clauses() -> Result<(), GraphError> {
    let (graph, quotient) = path_with_fake_orbits()?;
    let (formula, dict) = encode_problem(&quotient, &graph).unwrap();
    assert_eq!(expected_nontrivial(), formula);
    assert_eq!(4, dict.variable_number());
    Ok(())
}

fn graph_edges_case() -> Result<(), GraphError> {
    let mut graph = Graph::new_ordered(5);
    graph.add_arc(0, 1)?;
    graph.add_arc(1, 2)?;
    graph.add_arc(3, 4)?;
    graph.add_arc(4, 0)?;

    assert_eq!(true, graph.lookup_edge(&0, &1));
    assert_eq!(true, graph.lookup_edge(&1, &2));
    assert_eq!(true, graph.lookup_edge(&3, &4));
    assert_eq!(true, graph.lookup_edge(&4, &0));
    Ok(())
}

#[test]
fn encoding_test_encode_graph_edges() -> Result<(), GraphError> {
    graph_edges_case()
}

#[test]
fn mod_test_encode_graph_edges() -> Result<(), GraphError> {
    graph_edges_case()
}

fn descriptive_constraint_case() {
    let orbit_encoding = vec![(0, vec![0, 1]), (2, vec![2, 3])];
    let edge_encoding = vec![EdgeEncoding(0, 2)];
    let mut dict = SATEncodingDictionary::default();
    let some_graph = Graph::new_ordered(4);

    let o0v0 = dict.lookup_pairing(0, 0);
    let o0v1 = dict.lookup_pairing(0, 1);
    let o2v2 = dict.lookup_pairing(2, 2);
    let o2v3 = dict.lookup_pairing(2, 3);

    let constraint02 = vec![-o0v0, -o2v2];
    let constraint03 = vec![-o0v0, -o2v3];
    let constraint12 = vec![-o0v1, -o2v2];
    let constraint13 = vec![-o0v1, -o2v3];

    let formula =
        QuotientGraphEncoding(edge_encoding, orbit_encoding).encode_sat(&mut dict, &some_graph);
    assert_eq!(4, formula.len());
    assert!(formula.contains(&constraint02));
    assert!(formula.contains(&constraint03));
    assert!(formula.contains(&constraint12));
    assert!(formula.contains(&constraint13));
}

#[test]
fn encoding_test_descriptive_constraint() {
    descriptive_constraint_case();
}

#[test]
fn mod_test_descriptive_constraint() {
    descriptive_constraint_case();
}

fn transversal_encoding_case() {
    let orbit_encoding = (0, vec![0, 1, 4]);
    let mut dict = SATEncodingDictionary::default();
    let some_graph = Graph::new_ordered(0);
    let pick0 = dict.lookup_pairing(0, 0);
    let pick1 = dict.lookup_pairing(0, 1);
    let pick4 = dict.lookup_pairing(0, 4);
    assert_eq!(1, pick0);
    assert_eq!(2, pick1);
    assert_eq!(3, pick4);

    let at_least_one = vec![pick0, pick1, pick4];
    let at_most_one = vec![
        vec![-pick0, -pick1],
        vec![-pick0, -pick4],
        vec![-pick1, -pick4],
    ];

    let formula = orbit_encoding.encode_sat(&mut dict, &some_graph);
    assert_eq!(4, formula.len());
    assert!(formula.contains(&at_least_one));
    for mut_ex in at_most_one {
        assert!(formula.contains(&mut_ex));
    }
}

#[test]
fn encoding_test_transversal_encoding() {
    transversal_encoding_case();
}

#[test]
fn mod_test_transversal_encoding() {
    transversal_encoding_case();
}

#[test]
fn orbit_of_size_k_gives_one_plus_k_choose_two_clauses() {
    let some_graph = Graph::new_ordered(0);
    for k in 0..7i32 {
        let mut dict = SATEncodingDictionary::default();
        let orbit = (0, (0..k).collect::<Vec<i32>>());
        let formula = orbit.encode_sat(&mut dict, &some_graph);
        assert_eq!(1 + (k * (k - 1) / 2) as usize, formula.len());
        assert_eq!(k as usize, dict.variable_number());
    }
}

fn encode_graph_case() {
    let mut graph = Graph::new_ordered(4);
    graph.add_arc(0, 1).unwrap();
    graph.add_arc(1, 2).unwrap();
    graph.add_arc(2, 3).unwrap();
    graph.add_arc(3, 1).unwrap();
    let encoded = graph.encode_high();
    assert_eq!(
        encoded,
        vec![
            EdgeEncoding(0, 1),
            EdgeEncoding(1, 2),
            EdgeEncoding(2, 3),
            EdgeEncoding(3, 1)
        ]
    );
}

#[test]
fn encoding_test_encode_graph() {
    encode_graph_case();
}

#[test]
fn mod_test_encode_graph() {
    encode_graph_case();
}

fn encode_orbits_case() {
    let orbits = vec![0, 1, 2, 0, 2, 1, 0];
    let encoded = orbits.encode_high();
    assert_eq!(
        encoded,
        vec![(0, vec![0, 3, 6]), (1, vec![1, 5]), (2, vec![2, 4])]
    );
}

#[test]
fn encoding_test_encode_orbits() {
    encode_orbits_case();
}

#[test]
fn mod_test_encode_orbits() {
    encode_orbits_case();
}

#[test]
fn encode_orbits_skips_unmarked_vertices() {
    let orbits = vec![0, -1, 0, 3, -1];
    assert_eq!(vec![(0, vec![0, 2]), (3, vec![3])], orbits.encode_high());
}

#[test]
fn no_quotient_edges_is_trivially_descriptive() {
    // Three isolated vertices, all in one orbit: the quotient is one vertex.
    let graph = Graph::new_ordered(3);
    let quotient = QuotientGraph::from_graph_orbits(&graph, vec![0, 0, 0]);
    assert!(encode_problem(&quotient, &graph).is_none());
    // Two orbits without any edge between them.
    let graph = Graph::new_ordered(2);
    let quotient = QuotientGraph::from_graph_orbits(&graph, vec![0, 1]);
    assert!(encode_problem(&quotient, &graph).is_none());
}

#[test]
fn constraint_step_allocates_literals_on_first_use() {
    let some_graph = Graph::new_ordered(4);
    // Without quotient edges nothing is encoded and nothing allocated.
    let mut dict = SATEncodingDictionary::default();
    let formula = QuotientGraphEncoding(vec![], vec![(0, vec![0, 1]), (2, vec![2, 3])])
        .encode_sat(&mut dict, &some_graph);
    assert!(formula.is_empty());
    assert_eq!(0, dict.variable_number());
    // With an edge, literals come in clause order.
    let mut dict = SATEncodingDictionary::default();
    let formula = QuotientGraphEncoding(vec![EdgeEncoding(0, 2)], vec![(0, vec![0, 1]), (2, vec![2, 3])])
        .encode_sat(&mut dict, &some_graph);
    assert_eq!(vec![vec![-1, -2], vec![-1, -3], vec![-4, -2], vec![-4, -3]], formula);
    assert_eq!(vec![(-1, -1), (0, 0), (2, 2), (2, 3), (0, 1)], dict.destroy());
}
