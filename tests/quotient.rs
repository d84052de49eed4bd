use descriptive_quotients::graph::{Graph, GraphError, Vertex, DEFAULT_COLOR};
use descriptive_quotients::orbits::{apply_generator, empty_orbits, generate_orbits};
use descriptive_quotients::permutation::Permutation;
use descriptive_quotients::quotient::QuotientGraph;

fn cube() -> Result<Graph, GraphError> {
    let mut graph = Graph::new_ordered(8);
    graph.add_edge(0, 1)?;
    graph.add_edge(0, 3)?;
    graph.add_edge(0, 4)?;
    graph.add_edge(1, 2)?;
    graph.add_edge(1, 5)?;
    graph.add_edge(2, 3)?;
    graph.add_edge(2, 6)?;
    graph.add_edge(3, 7)?;
    graph.add_edge(4, 5)?;
    graph.add_edge(4, 7)?;
    graph.add_edge(5, 6)?;
    graph.add_edge(6, 7)?;
    Ok(graph)
}

#[test]
fn test_from_graph_orbits() -> Result<(), GraphError> {
    let graph = cube()?;

    let orbits = vec![0, 1, 2, 1, 4, 0, 1, 0];

    let quotient = QuotientGraph::from_graph_orbits(&graph, orbits.clone());
    assert_eq!(orbits, quotient.orbits);

    let mut expected_vert0 = Vertex::new(0, DEFAULT_COLOR);
    expected_vert0.add_edge(1);
    expected_vert0.add_edge(4);
    let mut expected_vert1 = Vertex::new(1, DEFAULT_COLOR);
    expected_vert1.add_edge(0);
    expected_vert1.add_edge(2);
    let mut expected_vert2 = Vertex::new(2, DEFAULT_COLOR);
    expected_vert2.add_edge(1);
    let mut expected_vert4 = Vertex::new(4, DEFAULT_COLOR);
    expected_vert4.add_edge(0);

    assert_eq!(4, quotient.quotient_graph.size());
    assert_eq!(expected_vert0, *quotient.quotient_graph.get_vertex(0)?);
    assert_eq!(expected_vert1, *quotient.quotient_graph.get_vertex(1)?);
    assert_eq!(expected_vert2, *quotient.quotient_graph.get_vertex(2)?);
    assert_eq!(expected_vert4, *quotient.quotient_graph.get_vertex(4)?);

    // Single orbit
    let graph = Graph::new_ordered(1);
    let orbits = vec![0];

    let quotient = QuotientGraph::from_graph_orbits(&graph, orbits.clone());
    assert_eq!(orbits, quotient.orbits);
    assert_eq!(
        Vertex::new(0, DEFAULT_COLOR),
        *quotient.quotient_graph.get_vertex(0)?
    );
    assert_eq!(1, quotient.quotient_graph.size());

    Ok(())
}

#[test]
fn test_apply_generator() {
    let mut orbits = empty_orbits(7);
    let generator = vec![0, 1, 4, 3, 2, 6, 5];

    apply_generator(&generator, &mut orbits);

    assert_eq!(orbits, [0, 1, 2, 3, 2, 5, 5]);
}

#[test]
fn test_generate_orbits() {
    let generators = vec![
        vec![5, 1, 2, 6, 4, 0, 3, 7].into(),
        vec![0, 3, 2, 1, 4, 7, 6, 5].into(),
    ];
    let orbits = generate_orbits(&generators);
    assert_eq!(orbits, vec![0, 1, 2, 1, 4, 0, 1, 0]);
}

#[test]
fn orbits_do_not_depend_on_generator_order() {
    let a: Permutation = vec![1, 2, 0, 3, 4, 5].into();
    let b: Permutation = vec![0, 1, 2, 4, 3, 5].into();
    let c: Permutation = vec![0, 1, 2, 3, 5, 4].into();
    let one = generate_orbits(&vec![a.clone(), b.clone(), c.clone()]);
    let two = generate_orbits(&vec![c.clone(), a.clone(), b.clone()]);
    let three = generate_orbits(&vec![b, c, a]);
    assert_eq!(vec![0, 0, 0, 3, 3, 3], one);
    assert_eq!(one, two);
    assert_eq!(one, three);
    for v in 0..one.len() {
        assert_eq!(one[one[v] as usize], one[v]);
    }
}

#[test]
fn quotient_edges_come_from_cross_orbit_edges() -> Result<(), GraphError> {
    let graph = cube()?;
    let orbits = vec![0, 1, 2, 1, 4, 0, 1, 0];
    let quotient = QuotientGraph::from_graph_orbits(&graph, orbits.clone());
    for vertex in quotient.quotient_graph.vertices.iter() {
        for end in vertex.edges_to.iter() {
            assert_ne!(vertex.index, *end);
            assert!(graph.iterate_edges().iter().any(|(u, v)| {
                orbits[*u as usize] == vertex.index && orbits[*v as usize] == *end
            }));
        }
    }
    Ok(())
}

#[test]
fn induced_subquotient_marks_other_orbits() -> Result<(), GraphError> {
    let graph = cube()?;
    let quotient = QuotientGraph::from_graph_orbits(&graph, vec![0, 1, 2, 1, 4, 0, 1, 0]);
    let sub = quotient.induced_subquotient(&vec![0, 1])?;
    assert_eq!(vec![0, 1, -1, 1, -1, 0, 1, 0], sub.orbits);
    assert_eq!(2, sub.quotient_graph.size());
    assert_eq!(vec![1], sub.quotient_graph.get_vertex(0)?.edges_to);
    assert_eq!(vec![0], sub.quotient_graph.get_vertex(1)?.edges_to);
    assert_eq!(Err(GraphError(3)), quotient.induced_subquotient(&vec![3]).map(|_| ()));
    Ok(())
}
