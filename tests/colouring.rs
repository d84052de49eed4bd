use descriptive_quotients::colouring::{colour_partition, recolor_core};
use descriptive_quotients::graph::{Graph, GraphError, DEFAULT_COLOR};

#[test]
fn recolouring_a_core_gives_fresh_colours() -> Result<(), GraphError> {
    let mut graph = Graph::new_ordered(6);
    graph.add_edge(0, 1)?;
    let core = vec![(0, vec![0, 2, 4]), (1, vec![1]), (3, vec![3, 5])];
    // Three fresh colours, counting up from below the least colour in use.
    let first = recolor_core(&mut graph, &core);
    assert_eq!(Some(DEFAULT_COLOR - 3), first);
    let colours: Vec<i32> = graph.vertices.iter().map(|v| v.colour).collect();
    assert_eq!(
        vec![DEFAULT_COLOR, DEFAULT_COLOR, DEFAULT_COLOR - 3, DEFAULT_COLOR, DEFAULT_COLOR - 2, DEFAULT_COLOR - 1],
        colours
    );
    // Vertices of different colours keep different colours.
    let mut coloured = Graph::new_ordered(4);
    coloured.set_colours(&vec![5, 7, 5, 7])?;
    assert_eq!(Some(4), recolor_core(&mut coloured, &vec![(0, vec![0, 2])]));
    let colours: Vec<i32> = coloured.vertices.iter().map(|v| v.colour).collect();
    assert_eq!(vec![5, 7, 4, 7], colours);
    // No room below the least colour.
    let mut low = Graph::new_ordered(2);
    low.set_colours(&vec![i32::MIN, 0])?;
    assert_eq!(None, recolor_core(&mut low, &vec![(0, vec![0, 1])]));
    assert_eq!(i32::MIN, low.vertices[0].colour);
    assert_eq!(vec![1], graph.vertices[0].edges_to);
    assert_eq!(Err(GraphError(9)), graph.recolor(9, 1));
    Ok(())
}

#[test]
fn partition_groups_vertices_by_colour() -> Result<(), GraphError> {
    let mut graph = Graph::new_ordered(8);
    graph.set_colours(&vec![2, 2, 1, 2, 2, 2, 2, 2])?;
    let (lab, ptn) = colour_partition(&graph);
    assert_eq!(vec![2, 0, 1, 3, 4, 5, 6, 7], lab);
    assert_eq!(vec![0, 1, 1, 1, 1, 1, 1, 0], ptn);
    let mut plain = Graph::new_ordered(3);
    plain.set_colours(&vec![5, 1, 5])?;
    let (lab, ptn) = colour_partition(&plain);
    assert_eq!(vec![1, 0, 2], lab);
    assert_eq!(vec![0, 1, 0], ptn);
    Ok(())
}
