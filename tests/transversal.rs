use descriptive_quotients::dictionary::SATEncodingDictionary;
use descriptive_quotients::encoding::{encode_problem, EdgeEncoding, HighLevelEncoding, QuotientGraphEncoding};
use descriptive_quotients::graph::{Graph, GraphError};
use descriptive_quotients::quotient::QuotientGraph;
use descriptive_quotients::transversal::{
    get_core_orbits, get_core_orbits_indexed, get_transversal, is_transversal_consistent,
};
use descriptive_quotients::VertexIndex;

#[test]
fn test_is_transversal_consistent_true() -> Result<(), GraphError> {
    let mut graph = Graph::new_ordered(8);
    graph.add_edge(0, 1)?;
    graph.add_edge(0, 3)?;
    graph.add_edge(0, 4)?;
    graph.add_edge(1, 2)?;
    graph.add_edge(1, 5)?;
    graph.add_edge(2, 3)?;
    graph.add_edge(2, 6)?;
    graph.add_edge(3, 7)?;
    graph.add_edge(4, 5)?;
    graph.add_edge(4, 7)?;
    graph.add_edge(5, 6)?;
    graph.add_edge(6, 7)?;

    let quotient1: QuotientGraphEncoding = QuotientGraphEncoding(
        vec![EdgeEncoding(0, 2)],
        vec![(0, vec![0, 1, 4, 5]), (2, vec![2, 3, 6, 7])],
    );
    let transversal1_1 = vec![(0, 0), (2, 3)];
    assert!(is_transversal_consistent(&transversal1_1, &graph, &quotient1.clone()));
    let transversal1_2 = vec![(0, 5), (2, 6)];
    assert!(is_transversal_consistent(&transversal1_2, &graph, &quotient1.clone()));
    let transversal1_3 = vec![(0, 0), (2, 6)];
    assert!(!is_transversal_consistent(&transversal1_3, &graph, &quotient1.clone()));

    let quotient2: QuotientGraphEncoding = QuotientGraphEncoding(
        vec![EdgeEncoding(0, 1), EdgeEncoding(0, 4), EdgeEncoding(1, 2)],
        vec![
            (0, vec![0, 5, 7]),
            (1, vec![1, 3, 6]),
            (2, vec![2]),
            (4, vec![4]),
        ],
    );
    let transversal2_1 = vec![(0, 0), (1, 1), (2, 2), (4, 4)];
    assert!(is_transversal_consistent(&transversal2_1, &graph, &quotient2.clone()));
    let transversal2_2 = vec![(0, 5), (1, 6), (2, 2), (4, 4)];
    assert!(is_transversal_consistent(&transversal2_2, &graph, &quotient2.clone()));
    let transversal2_3 = vec![(0, 0), (1, 6), (2, 2), (4, 4)];
    assert!(!is_transversal_consistent(&transversal2_3, &graph, &quotient2.clone()));

    Ok(())
}

#[test]
fn test_is_transversal_consistent_false() -> Result<(), GraphError> {
    let mut graph = Graph::new_ordered(8);
    graph.add_edge(0, 1)?;
    graph.add_edge(0, 4)?;
    graph.add_edge(1, 7)?;
    graph.add_edge(2, 3)?;
    graph.add_edge(2, 6)?;
    graph.add_edge(3, 6)?;
    graph.add_edge(4, 5)?;
    graph.add_edge(6, 7)?;

    let quotient: QuotientGraphEncoding = QuotientGraphEncoding(
        vec![
            EdgeEncoding(0, 1),
            EdgeEncoding(0, 4),
            EdgeEncoding(1, 5),
            EdgeEncoding(4, 5),
        ],
        vec![
            (0, vec![0, 2]),
            (1, vec![1, 3]),
            (4, vec![4, 6]),
            (5, vec![5, 7]),
        ],
    );

    for pick0 in [0, 2] {
        for pick1 in [1, 3] {
            for pick4 in [4, 6] {
                for pick5 in [5, 7] {
                    let transversal = vec![(0, pick0), (1, pick1), (4, pick4), (5, pick5)];
                    assert!(!is_transversal_consistent(&transversal, &graph, &quotient.clone()));
                }
            }
        }
    }

    Ok(())
}

#[test]
fn test_get_transversal() {
    // Orbit 1: {0,1}
    // orbit 2: {2,3}
    // Edges: 0-2,1-3
    // Transversal: 0|->0,2|->3

    let assignment = vec![false, true, false, true, false];

    let mut dict = SATEncodingDictionary::default();
    assert_eq!(1, dict.lookup_pairing(0, 0));
    assert_eq!(2, dict.lookup_pairing(0, 1));
    assert_eq!(3, dict.lookup_pairing(2, 3));
    assert_eq!(4, dict.lookup_pairing(2, 2));

    let expected_transversal = vec![(0, 0), (2, 3)];
    assert_eq!(expected_transversal, get_transversal(&assignment, dict));
}

#[test]
fn test_get_core_orbits_indexed() {
    let mut dict = SATEncodingDictionary::default();
    let pairs = vec![
        (14, 14),
        (14, 34),
        (22, 22),
        (22, 26),
        (134, 144),
        (134, 134),
        (154, 154),
        (154, 158),
        (127, 127),
    ];
    for (index, (orbit, vertex)) in pairs.into_iter().enumerate() {
        assert_eq!(index as VertexIndex + 1, dict.lookup_pairing(orbit, vertex));
    }

    let formula = vec![vec![1, 2], vec![-1, -2], vec![3, 4], vec![-3, -4], vec![9]];
    let core = vec![1, 3, 5];

    let expected_orbits = vec![14, 22, 127];

    assert_eq!(
        expected_orbits,
        get_core_orbits_indexed(&core, &formula, dict)
    );
}

#[test]
fn core_orbits_are_sorted_and_unique() {
    let mut dict = SATEncodingDictionary::default();
    dict.lookup_pairing(9, 9);
    dict.lookup_pairing(3, 4);
    dict.lookup_pairing(3, 3);
    let core = vec![vec![-1, 2], vec![3, -2]];
    assert_eq!(vec![3, 9], get_core_orbits(&core, dict));
}

#[test]
fn decoded_transversal_of_a_descriptive_quotient_is_consistent() -> Result<(), GraphError> {
    // A 4-cycle 0-1-2-3-0 with orbits {0,2} and {1,3}: any pick is adjacent.
    // Add a chord 0-1 only, orbits {0,2} {1,3} on a path 0-1-2-3.
    let mut graph = Graph::new_ordered(4);
    graph.add_edge(0, 1)?;
    graph.add_edge(1, 2)?;
    graph.add_edge(2, 3)?;
    let quotient = QuotientGraph::from_graph_orbits(&graph, vec![0, 1, 0, 1]);
    let (formula, dict) = encode_problem(&quotient, &graph).unwrap();
    // Literals: (0,0)=1 (0,2)=2 (1,1)=3 (1,3)=4. Picking 0 and 1 satisfies it.
    let assignment = vec![false, true, false, true, false];
    for clause in formula.iter() {
        assert!(clause
            .iter()
            .any(|l| if *l > 0 { assignment[*l as usize] } else { !assignment[(-*l) as usize] }));
    }
    let transversal = get_transversal(&assignment, dict);
    assert_eq!(vec![(0, 0), (1, 1)], transversal);
    assert!(is_transversal_consistent(&transversal, &graph, &quotient.encode_high()));
    Ok(())
}
