use descriptive_quotients::graph::{Graph, GraphError};
use descriptive_quotients::input::{
    parse_column_header, parse_csv_input, parse_edge, parse_meaningless_comment,
    parse_size_comment, parse_txt_input, InputError,
};

#[test]
fn test_parse_edge() -> Result<(), InputError> {
    let edge = "123,46783".as_bytes();
    let parsed = parse_edge(edge)?.1;
    assert_eq!((123, 46783), parsed);
    Ok(())
}

#[test]
fn test_parse_column_header() -> Result<(), InputError> {
    let header = "node_1,node_2\n".as_bytes();
    Ok(parse_column_header(header)?.1)
}

#[test]
fn test_parse_csv_input() -> Result<(), GraphError> {
    let csv = "node_1,node_2
0,3
0,1
0,6
1,10
1,3
";
    let parsed = parse_csv_input(11, csv.as_bytes()).unwrap();
    let mut graph = Graph::new_ordered(11);
    graph.add_edge(0, 3)?;
    graph.add_edge(0, 1)?;
    graph.add_edge(0, 6)?;
    graph.add_edge(1, 10)?;
    graph.add_edge(1, 3)?;
    assert_eq!(graph, parsed);
    Ok(())
}

#[test]
fn test_parse_size_comment() -> Result<(), InputError> {
    let comment = "# Nodes: 18772 Edges: 396160\n".as_bytes();
    let (_, parsed) = parse_size_comment(comment)?;
    assert_eq!(18772, parsed);
    Ok(())
}

#[test]
fn test_parse_meaningless_comment() -> Result<(), InputError> {
    let comment = "# Directed graph (each unordered pair of nodes is saved once):\n".as_bytes();
    Ok(parse_meaningless_comment(comment)?.1)
}

#[test]
fn test_parse_txt_input() -> Result<(), GraphError> {
    let txt = "# Directed graph (each unordered pair of nodes is saved once): CA-AstroPh.txt 
# Collaboration network of Arxiv Astro Physics category (there is an edge if authors coauthored at least one paper)
# Nodes: 6 Edges: 396160
# FromNodeId	ToNodeId
0	1
2	3
1	4
2	5
";
    let mut graph = Graph::new_ordered(6);
    graph.add_edge(0, 1)?;
    graph.add_edge(2, 3)?;
    graph.add_edge(1, 4)?;
    graph.add_edge(2, 5)?;
    let parsed = parse_txt_input(txt.as_bytes()).unwrap();
    assert_eq!(graph, parsed);
    Ok(())
}

#[test]
fn edge_list_errors() {
    assert_eq!(Err(InputError::VertexOutOfRange), parse_csv_input(3, b"h\n0,1\n1,3\n"));
    assert_eq!(Err(InputError::Malformed), parse_csv_input(3, b"h\n0,1\n\n"));
    assert_eq!(Err(InputError::Malformed), parse_csv_input(3, b""));
    assert_eq!(Err(InputError::Malformed), parse_csv_input(3, b"h\n0;1\n"));
    assert!(parse_csv_input(3, b"h\r\n0,1\r\n2,1").is_ok());
    assert_eq!(Err(InputError::Malformed), parse_txt_input(b"# a\n# b\n# Nodes: x Edges: 1\n# c\n"));
    assert_eq!(Err(InputError::Malformed), parse_txt_input(b"# a\n# b\n"));
    assert_eq!(Err(InputError::Malformed), parse_meaningless_comment(b"x\n").map(|_| ()));
    assert_eq!(Err(InputError::Malformed), parse_edge(b"1;2").map(|_| ()));
}
