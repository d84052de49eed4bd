use descriptive_quotients::encoding::{HighLevelEncoding, QuotientGraphEncoding};
use descriptive_quotients::graph::{Graph, GraphError};
use descriptive_quotients::metric::{
    BiggestOrbits, LeastOrbits, Metric, MetricUsed, NautyTraces, Sparsity,
};
use descriptive_quotients::permutation::Permutation;
use descriptive_quotients::quotient::QuotientGraph;
use descriptive_quotients::search::{after_round, core_candidate, prepare_round, Round, SearchState, MAX_ROUNDS};
use descriptive_quotients::statistics::{OrbitStatistics, StatisticsLevel};
use std::cmp::Ordering;

fn path(n: usize) -> Result<Graph, GraphError> {
    let mut graph = Graph::new_ordered(n);
    for v in 1..n {
        graph.add_edge(v as i32 - 1, v as i32)?;
    }
    Ok(graph)
}

fn satisfiable(formula: &Vec<Vec<i32>>, variables: usize) -> bool {
    (0..(1u32 << variables)).any(|bits| {
        formula.iter().all(|clause| {
            clause.iter().any(|l| {
                let value = bits & (1 << (l.unsigned_abs() - 1)) != 0;
                if *l > 0 { value } else { !value }
            })
        })
    })
}

#[test]
fn test_non_descriptive() -> Result<(), GraphError> {
    let mut graph = path(4)?;
    graph.set_colours(&vec![1, 2, 2, 3])?;
    let quotient = QuotientGraph::from_graph_orbits(&graph, vec![0, 1, 1, 3]);
    let (formula, dict) = descriptive_quotients::encoding::encode_problem(&quotient, &graph).unwrap();
    assert_eq!(8, formula.len());
    assert!(!satisfiable(&formula, dict.variable_number()));
    Ok(())
}

#[test]
fn rounds_of_the_search() -> Result<(), GraphError> {
    let graph = path(3)?;
    assert!(matches!(prepare_round(&vec![], &graph), Round::Exhausted));
    // The reflection of the path 0-1-2 gives orbits {0,2} {1}: trivially descriptive.
    let reflection = Permutation::new(vec![2, 1, 0]);
    match prepare_round(&vec![reflection], &graph) {
        Round::TriviallyDescriptive(quotient) => assert_eq!(vec![0, 1, 0], quotient.orbits),
        _ => panic!("expected a trivially descriptive quotient"),
    }
    // Merging the inner vertices of the path 0-1-2-3 needs the oracle.
    let graph = path(4)?;
    let swap = Permutation::new(vec![0, 2, 1, 3]);
    match prepare_round(&vec![swap], &graph) {
        Round::Encoded(quotient, formula, dict) => {
            assert_eq!(vec![0, 1, 1, 3], quotient.orbits);
            assert_eq!(8, formula.len());
            assert!(!satisfiable(&formula, dict.variable_number()));
        }
        _ => panic!("expected a formula"),
    }
    Ok(())
}

#[test]
fn core_candidates_keep_arcs_between_chosen_orbits() -> Result<(), GraphError> {
    let graph = path(4)?;
    let quotient = QuotientGraph::from_graph_orbits(&graph, vec![0, 1, 1, 3]);
    let encoding: QuotientGraphEncoding = quotient.encode_high();
    let (candidate, formula) = core_candidate(&encoding, vec![(0, vec![0]), (1, vec![1, 2])], &graph);
    assert_eq!(2, candidate.0.len());
    assert_eq!((0, 1), candidate.0[0].get_edge());
    assert_eq!((1, 0), candidate.0[1].get_edge());
    // 1 + 2 transversal clauses, and one clause per missing arc in each direction.
    assert_eq!(5, formula.len());
    assert!(satisfiable(&formula, 3));
    Ok(())
}

#[test]
fn metrics_rank_quotients() -> Result<(), GraphError> {
    let graph = path(4)?;
    let coarse = QuotientGraph::from_graph_orbits(&graph, vec![0, 1, 1, 0]);
    let fine = QuotientGraph::from_graph_orbits(&graph, vec![0, 1, 2, 3]);
    assert_eq!((2, 2), coarse.get_orbit_sizes());
    assert_eq!((1, 1), fine.get_orbit_sizes());
    assert_eq!(Ordering::Less, LeastOrbits::compare_quotients(&coarse, &fine));
    assert_eq!(Ordering::Less, BiggestOrbits::compare_quotients(&coarse, &fine));
    // Four cross-orbit arcs over two orbits against six over four.
    assert_eq!(4, coarse.quotient_graph.number_edges());
    assert_eq!(6, fine.quotient_graph.number_edges());
    assert_eq!(Ordering::Greater, Sparsity::compare_quotients(&coarse, &fine));
    assert_eq!(Ordering::Greater, MetricUsed::LeastOrbits.compare_quotients(&fine, &coarse));
    assert_eq!(Ordering::Less, MetricUsed::Standard.compare_quotients(&fine, &coarse));
    assert_eq!(MetricUsed::Standard, MetricUsed::default());
    assert_eq!(NautyTraces::Nauty, NautyTraces::default());
    let mixed = QuotientGraph::from_graph_orbits(&graph, vec![0, 0, 0, 3]);
    assert_eq!((1, 3), mixed.get_orbit_sizes());
    Ok(())
}

#[test]
fn statistics_count_orbits_by_size() {
    assert_eq!(StatisticsLevel::Off, StatisticsLevel::from(0u64));
    assert_eq!(StatisticsLevel::Basic, StatisticsLevel::from(1u64));
    assert_eq!(StatisticsLevel::Full, StatisticsLevel::from(7u64));
    let mut stats = OrbitStatistics::default();
    stats.log_orbit(&(0, vec![0, 1]));
    stats.log_orbit(&(2, vec![2, 3]));
    stats.log_orbit(&(4, vec![4]));
    assert_eq!(Some(&2), stats.orbit_sizes.get(&2));
    assert_eq!(Some(&1), stats.orbit_sizes.get(&1));
    assert_eq!(None, stats.orbit_sizes.get(&3));
}

#[test]
fn rounds_decide_the_next_step() -> Result<(), GraphError> {
    let graph = path(4)?;
    let empty = prepare_round(&vec![], &graph);
    assert_eq!(SearchState::Exhausted, after_round(&empty, false, 0, true));
    let short = path(3)?;
    let reflection = prepare_round(&vec![Permutation::new(vec![2, 1, 0])], &short);
    assert_eq!(SearchState::TriviallyDescriptive, after_round(&reflection, false, 0, true));
    let encoded = prepare_round(&vec![Permutation::new(vec![0, 2, 1, 3])], &graph);
    assert_eq!(SearchState::Descriptive, after_round(&encoded, false, 3, true));
    assert_eq!(SearchState::Repair, after_round(&encoded, true, MAX_ROUNDS - 1, true));
    assert_eq!(SearchState::GaveUp, after_round(&encoded, true, MAX_ROUNDS, true));
    assert_eq!(SearchState::Repair, after_round(&encoded, true, MAX_ROUNDS, false));
    Ok(())
}
