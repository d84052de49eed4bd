use descriptive_quotients::graph::{Graph, GraphError, GraphState, Vertex, DEFAULT_COLOR};
use descriptive_quotients::VertexIndex;

#[test]
fn internal_graph_new_graph_default() {
    let graph = Graph::new_ordered(120);
    assert!(graph.is_sparse());
    for (index, vertex) in graph.vertices.iter().enumerate() {
        assert_eq!(index as VertexIndex, vertex.index);
        assert_eq!(DEFAULT_COLOR, vertex.colour);
        assert!(vertex.edges_to.is_empty());
    }
}

#[test]
fn internal_graph_test_set_vertex() {
    let mut graph = Graph::new_ordered(5);
    assert_eq!(5, graph.size());
    assert_eq!(GraphState::IndexOrdered, graph.state);

    // First with IndexOrdered

    // In bounds
    let valid_vertex = Vertex::new(2, 45);
    assert_eq!(Ok(()), graph.set_vertex(valid_vertex.clone()));

    // Negative index
    let negative_vertex = Vertex::new(-23, 9);
    assert_eq!(Err(GraphError(-23)), graph.set_vertex(negative_vertex));

    // Index out of bounds
    let oob_vertex = Vertex::new(5, 124);
    assert_eq!(Err(GraphError(5)), graph.set_vertex(oob_vertex));

    // Then with another state
    graph.state = GraphState::Chaos;

    // In bounds
    let valid_vertex_chaos = Vertex::new(3, 50);
    assert_eq!(Ok(()), graph.set_vertex(valid_vertex_chaos.clone()));

    // Negative index
    let negative_vertex_chaos = Vertex::new(-120, 9);
    assert_eq!(
        Err(GraphError(-120)),
        graph.set_vertex(negative_vertex_chaos)
    );

    // Index out of bounds
    let oob_vertex_chaos = Vertex::new(5, 124);
    assert_eq!(Err(GraphError(5)), graph.set_vertex(oob_vertex_chaos));

    assert_eq!(graph.vertices[0], Vertex::new(0, DEFAULT_COLOR));
    assert_eq!(graph.vertices[1], Vertex::new(1, DEFAULT_COLOR));
    assert_eq!(graph.vertices[2], valid_vertex);
    assert_eq!(graph.vertices[3], valid_vertex_chaos);
    assert_eq!(graph.vertices[4], Vertex::new(4, DEFAULT_COLOR));
}

#[test]
fn internal_graph_test_get_vertex() {
    let mut graph = Graph::new_ordered(5);
    assert_eq!(5, graph.size());
    assert_eq!(GraphState::IndexOrdered, graph.state);

    // First with IndexOrdered

    // In bounds
    let valid_result = graph.get_vertex_mut(2);
    assert!(valid_result.is_ok());
    assert_eq!(&mut Vertex::new(2, DEFAULT_COLOR), valid_result.unwrap());

    // Negative index
    assert_eq!(Err(GraphError(-3)), graph.get_vertex_mut(-3));

    // Index out of bounds
    assert_eq!(Err(GraphError(5)), graph.get_vertex_mut(5));

    // Then with another state
    graph.state = GraphState::Chaos;

    // In bounds
    let valid_result = graph.get_vertex_mut(3);
    assert!(valid_result.is_ok());
    assert_eq!(&mut Vertex::new(3, DEFAULT_COLOR), valid_result.unwrap());

    // Negative index
    assert_eq!(Err(GraphError(-1)), graph.get_vertex_mut(-1));

    // Index out of bounds
    assert_eq!(Err(GraphError(5)), graph.get_vertex_mut(5));
}

#[test]
fn edges_colours_and_subgraphs() -> Result<(), GraphError> {
    let mut graph = Graph::new_ordered(4);
    graph.add_edge(0, 1)?;
    graph.add_arc(2, 1)?;
    graph.add_arc(2, 1)?;
    graph.add_arc(2, 0)?;
    assert_eq!(5, graph.number_edges());
    assert!(graph.lookup_edge(&1, &0));
    assert!(!graph.lookup_edge(&1, &2));
    assert_eq!(Err(GraphError(7)), graph.add_edge(0, 7));
    graph.minimize();
    assert_eq!(vec![0, 1], graph.vertices[2].edges_to);
    assert_eq!(
        vec![(0, 1), (0, 7), (1, 0), (2, 0), (2, 1)],
        graph.iterate_edges()
    );
    assert_eq!(Ok(()), graph.set_colours(&vec![4, 5]));
    assert_eq!(4, graph.get_vertex(0)?.colour);
    assert_eq!(DEFAULT_COLOR, graph.get_vertex(3)?.colour);
    assert_eq!(Err(GraphError(4)), graph.set_colours(&vec![1, 1, 1, 1, 1]));
    let sub = graph.induce_subgraph(&vec![0, 2])?;
    assert_eq!(2, sub.size());
    assert_eq!(GraphState::Chaos, sub.state);
    assert_eq!(vec![0], sub.get_vertex(2)?.edges_to);
    assert!(sub.get_vertex(0)?.edges_to.is_empty());
    assert_eq!(Err(GraphError(9)), graph.induce_subgraph(&vec![0, 9]).map(|_| ()));
    let mut tiny = Graph::new_ordered(1);
    assert!(!tiny.is_sparse());
    assert_eq!(Ok(()), tiny.set_vertex(Vertex::new(0, 3)));
    Ok(())
}

#[test]
fn arrangement_transitions() -> Result<(), GraphError> {
    let mut graph = Graph::new_ordered(4);
    graph.set_colours(&vec![3, 1, 2, 1])?;
    graph.group_colours();
    assert_eq!(GraphState::ColourGroupedOrdered, graph.state);
    let indices: Vec<i32> = graph.vertices.iter().map(|v| v.index).collect();
    assert_eq!(vec![1, 3, 2, 0], indices);
    // Grouping again leaves the arrangement alone.
    graph.group_colours();
    assert_eq!(GraphState::ColourGroupedOrdered, graph.state);
    graph.sort();
    assert_eq!(GraphState::IndexOrdered, graph.state);
    let indices: Vec<i32> = graph.vertices.iter().map(|v| v.index).collect();
    assert_eq!(vec![0, 1, 2, 3], indices);
    assert_eq!(3, graph.get_vertex(0)?.colour);
    let mut chaos = Graph::new_with_indices(&vec![5, 2, 9]);
    chaos.group_colours();
    assert_eq!(GraphState::ColourGrouped, chaos.state);
    chaos.sort();
    let indices: Vec<i32> = chaos.vertices.iter().map(|v| v.index).collect();
    assert_eq!(vec![2, 5, 9], indices);
    Ok(())
}
