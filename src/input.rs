//! Edge-list input: a CSV file with a header line and one `a,b` edge per
//! line, or a text file in the SNAP layout with four `#` comment lines (the
//! third giving the vertex count) and one `a b` edge per line. Lines end at
//! a newline, which a carriage return may precede.
use crate::gap::{blank_end, digit_end, int_at, read_int, skip_blanks, skip_digits, small_value};
use crate::mus::digits_value;
use crate::graph::{edge_added, finds_at, index_ordered, Graph, GraphState, Vertex, DEFAULT_COLOR};
use crate::mus::{eol, find_eol};
use crate::VertexIndex;
use vstd::prelude::*;

verus! {

/// Why an edge list could not be read.
#[derive(Debug, Clone, Copy, PartialEq, Eq, Structural)]
pub enum InputError {
    /// A line that the format does not allow, or a missing line.
    Malformed,
    /// An edge names a vertex that the graph does not have.
    VertexOutOfRange,
}

/// Where the text of the line at `i` stops: before its newline, and
/// before a carriage return just ahead of that newline.
pub open spec fn line_stop(s: Seq<u8>, i: int) -> int {
    let e = eol(s, i);
    if e < s.len() && e > i && s[e - 1] == 13 {
        e - 1
    } else {
        e
    }
}

/// The text of the line at `i`.
pub open spec fn line_at(s: Seq<u8>, i: int) -> Seq<u8> {
    s.subrange(i, line_stop(s, i))
}

/// The start of the next line.
pub open spec fn next_line(s: Seq<u8>, i: int) -> int {
    if eol(s, i) < s.len() {
        eol(s, i) + 1
    } else {
        s.len() as int
    }
}

/// An edge `a,b` filling the whole line.
pub open spec fn csv_edge(t: Seq<u8>) -> Option<(int, int)> {
    match int_at(t, 0) {
        None => None,
        Some((a, q)) => if q < t.len() && t[q] == 44 {
            match int_at(t, q + 1) {
                Some((b, e)) => if e == t.len() {
                    Some((a, b))
                } else {
                    None
                },
                None => None,
            }
        } else {
            None
        },
    }
}

/// An edge `a b` filling the whole line, the two separated by blanks.
pub open spec fn txt_edge(t: Seq<u8>) -> Option<(int, int)> {
    match int_at(t, 0) {
        None => None,
        Some((a, q)) => {
            let p = blank_end(t, q);
            if p > q {
                match int_at(t, p) {
                    Some((b, e)) => if e == t.len() {
                        Some((a, b))
                    } else {
                        None
                    },
                    None => None,
                }
            } else {
                None
            }
        },
    }
}

/// The edges on the lines from `i` on, read by `csv_edge` (`txt` false) or
/// `txt_edge` (`txt` true).
pub open spec fn edge_lines(s: Seq<u8>, i: int, txt: bool) -> Option<Seq<(int, int)>>
    decreases s.len() - i,
{
    if i >= s.len() || i < 0 {
        Some(seq![])
    } else {
        let line = line_at(s, i);
        let edge = if txt {
            txt_edge(line)
        } else {
            csv_edge(line)
        };
        match edge {
            None => None,
            Some(ed) => if next_line(s, i) > i {
                match edge_lines(s, next_line(s, i), txt) {
                    Some(rest) => Some(seq![ed] + rest),
                    None => None,
                }
            } else {
                None
            },
        }
    }
}

/// The arcs at vertex `k` after adding the edges in order: each edge
/// `(a, b)` adds `b` to `a`'s list, then `a` to `b`'s list.
pub open spec fn adjacency(es: Seq<(int, int)>, k: int) -> Seq<VertexIndex>
    decreases es.len(),
{
    if es.len() == 0 {
        seq![]
    } else {
        let (a, b) = es.last();
        let first = if a == k {
            adjacency(es.drop_last(), k).push(b as VertexIndex)
        } else {
            adjacency(es.drop_last(), k)
        };
        if b == k {
            first.push(a as VertexIndex)
        } else {
            first
        }
    }
}

/// Both ends of every edge are vertices of `0..n`.
pub open spec fn edges_in_range(es: Seq<(int, int)>, n: nat) -> bool {
    forall|j: int| 0 <= j < es.len() ==> 0 <= (#[trigger] es[j]).0 < n && 0 <= es[j].1 < n
}

/// `g` is the graph on `0..n`, uncoloured, with the edges added in order.
pub open spec fn graph_of(n: nat, es: Seq<(int, int)>, g: Graph) -> bool {
    &&& g.wf()
    &&& g.size == n
    &&& g.state == GraphState::IndexOrdered
    &&& g.edge_number == 2 * es.len()
    &&& g.vertices@.len() == n
    &&& forall|k: int|
        0 <= k < n ==> (#[trigger] g.vertices@[k]).index == k && g.vertices@[k].colour == DEFAULT_COLOR
            && g.vertices@[k].edges_to@ == adjacency(es, k)
}

/// The edges in `es` as integer pairs.
pub open spec fn pairs_view(es: Seq<(i64, i64)>) -> Seq<(int, int)> {
    es.map_values(|e: (i64, i64)| (e.0 as int, e.1 as int))
}

/// The edges of `prefix` before those of `r`, if `r` has any.
pub open spec fn prepend_edges(prefix: Seq<(int, int)>, r: Option<Seq<(int, int)>>) -> Option<Seq<(int, int)>> {
    match r {
        Some(rest) => Some(prefix + rest),
        None => None,
    }
}

/// Where the line at `i` stops and where the next one starts.
fn line_bounds(s: &[u8], i: usize) -> (r: (usize, usize))
    requires
        i < s@.len(),
    ensures
        r.0 == line_stop(s@, i as int),
        r.1 == next_line(s@, i as int),
        i <= r.0 <= s@.len(),
        i < r.1 <= s@.len(),
{
    let e = find_eol(s, i);
    let stop = if e < s.len() && e > i && s[e - 1] == 13 { e - 1 } else { e };
    let next = if e < s.len() { e + 1 } else { s.len() };
    (stop, next)
}

fn read_csv_edge(t: &[u8]) -> (r: Option<(i64, i64)>)
    ensures
        match csv_edge(t@) {
            None => r is None,
            Some((a, b)) => r is Some && r->Some_0.0 == a && r->Some_0.1 == b,
        },
{
    match read_int(t, 0) {
        None => None,
        Some((a, q)) => {
            if q < t.len() && t[q] == 44 {
                match read_int(t, q + 1) {
                    Some((b, e)) => if e == t.len() {
                        Some((a, b))
                    } else {
                        None
                    },
                    None => None,
                }
            } else {
                None
            }
        },
    }
}

fn read_txt_edge(t: &[u8]) -> (r: Option<(i64, i64)>)
    ensures
        match txt_edge(t@) {
            None => r is None,
            Some((a, b)) => r is Some && r->Some_0.0 == a && r->Some_0.1 == b,
        },
{
    match read_int(t, 0) {
        None => None,
        Some((a, q)) => {
            let p = skip_blanks(t, q);
            if p > q {
                match read_int(t, p) {
                    Some((b, e)) => if e == t.len() {
                        Some((a, b))
                    } else {
                        None
                    },
                    None => None,
                }
            } else {
                None
            }
        },
    }
}

/// The edges on the lines from `start` on.
fn read_edge_lines(s: &[u8], start: usize, txt: bool) -> (r: Option<Vec<(i64, i64)>>)
    requires
        start <= s@.len(),
    ensures
        match edge_lines(s@, start as int, txt) {
            None => r is None,
            Some(es) => r is Some && pairs_view(r->Some_0@) == es && es.len() <= s@.len() - start,
        },
{
    let mut edges: Vec<(i64, i64)> = Vec::new();
    let mut i = start;
    while i < s.len()
        invariant
            start <= i <= s@.len(),
            edge_lines(s@, start as int, txt) == prepend_edges(pairs_view(edges@), edge_lines(s@, i as int, txt)),
            edges@.len() <= i - start,
        decreases s@.len() - i,
    {
        let (stop, next) = line_bounds(s, i);
        let line = vstd::slice::slice_subrange(s, i, stop);
        assert(line@ == line_at(s@, i as int));
        let edge = if txt { read_txt_edge(line) } else { read_csv_edge(line) };
        match edge {
            None => {
                return None;
            },
            Some(ed) => {
                let ghost before = edges@;
                edges.push(ed);
                proof {
                    let rest = edge_lines(s@, next as int, txt);
                    assert(edge_lines(s@, i as int, txt) == prepend_edges(seq![(ed.0 as int, ed.1 as int)], rest));
                    assert(pairs_view(edges@) =~= pairs_view(before).push((ed.0 as int, ed.1 as int)));
                    if rest is Some {
                        assert(pairs_view(before) + (seq![(ed.0 as int, ed.1 as int)] + rest->Some_0) =~= pairs_view(edges@) + rest->Some_0);
                    }
                }
                i = next;
            },
        }
    }
    assert(pairs_view(edges@) + Seq::<(int, int)>::empty() =~= pairs_view(edges@));
    Some(edges)
}

/// The graph on `0..n` with the edges added in order; fails on an edge
/// with an end outside `0..n`.
pub fn graph_from_edges(n: usize, edges: &Vec<(i64, i64)>) -> (r: Result<Graph, InputError>)
    requires
        n <= 2147483647,
        edges@.len() < usize::MAX / 4,
    ensures
        r is Ok <==> edges_in_range(pairs_view(edges@), n as nat),
        r is Ok ==> graph_of(n as nat, pairs_view(edges@), r->Ok_0),
        r is Err ==> r == Err::<Graph, InputError>(InputError::VertexOutOfRange),
{
    let ghost es = pairs_view(edges@);
    let mut graph = Graph::new_ordered(n);
    proof {
        assert forall|k: int| 0 <= k < n implies (#[trigger] graph.vertices@[k]).edges_to@ == adjacency(es.take(0), k) by {
            assert(es.take(0).len() == 0);
        }
    }
    let mut j: usize = 0;
    while j < edges.len()
        invariant
            es == pairs_view(edges@),
            n <= 2147483647,
            edges@.len() < usize::MAX / 4,
            j <= edges@.len(),
            edges_in_range(es.take(j as int), n as nat),
            graph_of(n as nat, es.take(j as int), graph),
        decreases edges@.len() - j,
    {
        let (a, b) = edges[j];
        assert(es[j as int] == (a as int, b as int));
        if a < 0 || a >= n as i64 || b < 0 || b >= n as i64 {
            proof {
                assert(!edges_in_range(es, n as nat)) by {
                    assert(es[j as int] == (a as int, b as int));
                }
            }
            return Err(InputError::VertexOutOfRange);
        }
        let ghost before = graph;
        proof {
            assert(finds_at(&before, a as VertexIndex, Some(a as usize)));
            assert(finds_at(&before, b as VertexIndex, Some(b as usize)));
        }
        let _ = graph.add_edge(a as VertexIndex, b as VertexIndex);
        proof {
            assert(crate::graph::holds_index(&before, a as VertexIndex));
            assert(crate::graph::holds_index(&before, b as VertexIndex));
            assert(edge_added(before.vertices@, graph.vertices@, a as int, b as int, a as VertexIndex, b as VertexIndex));
            let t = es.take(j + 1);
            assert(t.drop_last() =~= es.take(j as int));
            assert(t.last() == (a as int, b as int));
            assert forall|k: int| 0 <= k < n implies (#[trigger] graph.vertices@[k]).index == k && graph.vertices@[k].colour
                == DEFAULT_COLOR && graph.vertices@[k].edges_to@ == adjacency(t, k) by {
                if k != a && k != b {
                    assert(graph.vertices@[k] == before.vertices@[k]);
                }
            }
            assert forall|x: int| 0 <= x < t.len() implies 0 <= (#[trigger] t[x]).0 < n && 0 <= t[x].1 < n by {
                if x < j {
                    assert(t[x] == es.take(j as int)[x]);
                }
            }
        }
        j += 1;
    }
    assert(es.take(j as int) =~= es);
    Ok(graph)
}

/// The bytes of `# Nodes: `.
pub open spec fn nodes_tag() -> Seq<u8> {
    seq![35u8, 32, 78, 111, 100, 101, 115, 58, 32]
}

/// The bytes of ` Edges: `.
pub open spec fn edges_tag() -> Seq<u8> {
    seq![32u8, 69, 100, 103, 101, 115, 58, 32]
}

/// `t` holds `p` at position `i`.
pub open spec fn has_at(t: Seq<u8>, i: int, p: Seq<u8>) -> bool {
    0 <= i && i + p.len() <= t.len() && t.subrange(i, i + p.len()) == p
}

/// The size comment `# Nodes: <n> Edges: <m>` at the start of `t`: the
/// vertex count (at most `2^31 - 1`) and the position after it.
pub open spec fn size_comment(t: Seq<u8>) -> Option<(int, int)> {
    if has_at(t, 0, nodes_tag()) {
        let e = digit_end(t, 9);
        let n = digits_value(t.subrange(9, e));
        if e > 9 && n <= 2147483647 && has_at(t, e, edges_tag()) {
            let f = digit_end(t, e + 8);
            if f > e + 8 {
                Some((n, f))
            } else {
                None
            }
        } else {
            None
        }
    } else {
        None
    }
}

/// A comment line: its text starts with `#`.
pub open spec fn is_hash_comment(t: Seq<u8>) -> bool {
    t.len() >= 1 && t[0] == 35
}

/// The vertex count and edges of a SNAP text file.
pub open spec fn txt_at(s: Seq<u8>) -> Option<(int, Seq<(int, int)>)> {
    let i1 = next_line(s, 0);
    let i2 = next_line(s, i1);
    let i3 = next_line(s, i2);
    if 0 < s.len() && is_hash_comment(line_at(s, 0)) && i1 < s.len() && is_hash_comment(line_at(s, i1))
        && i2 < s.len() && i3 < s.len() && is_hash_comment(line_at(s, i3)) {
        match size_comment(line_at(s, i2)) {
            Some((n, f)) => if f == line_at(s, i2).len() {
                match edge_lines(s, next_line(s, i3), true) {
                    Some(es) => Some((n, es)),
                    None => None,
                }
            } else {
                None
            },
            None => None,
        }
    } else {
        None
    }
}

/// The edges of a CSV file: a header line, then edges.
pub open spec fn csv_at(s: Seq<u8>) -> Option<Seq<(int, int)>> {
    if s.len() == 0 {
        None
    } else {
        edge_lines(s, next_line(s, 0), false)
    }
}

fn matches_at(t: &[u8], i: usize, p: &Vec<u8>) -> (r: bool)
    requires
        i <= t@.len(),
    ensures
        r == has_at(t@, i as int, p@),
{
    if t.len() - i < p.len() {
        return false;
    }
    let mut k: usize = 0;
    while k < p.len()
        invariant
            i + p@.len() <= t@.len(),
            k <= p@.len(),
            forall|a: int| 0 <= a < k ==> t@[i + a] == p@[a],
        decreases p@.len() - k,
    {
        let length = t.len();
        assert(i + k < length);
        if t[i + k] != p[k] {
            assert(t@.subrange(i as int, i + p@.len())[k as int] != p@[k as int]);
            return false;
        }
        k += 1;
    }
    assert(t@.subrange(i as int, i + p@.len()) =~= p@);
    true
}

/// An edge `a,b` at the start of `s`, and the position after it.
pub open spec fn edge_prefix(s: Seq<u8>) -> Option<(int, int, int)> {
    match int_at(s, 0) {
        None => None,
        Some((a, q)) => if q < s.len() && s[q] == 44 {
            match int_at(s, q + 1) {
                Some((b, e)) => Some((a, b, e)),
                None => None,
            }
        } else {
            None
        },
    }
}

/// Reads an edge `a,b` at the start of the input; the number of bytes
/// read and the edge.
pub fn parse_edge(input: &[u8]) -> (r: Result<(usize, (VertexIndex, VertexIndex)), InputError>)
    ensures
        match edge_prefix(input@) {
            None => r == Err::<(usize, (VertexIndex, VertexIndex)), InputError>(InputError::Malformed),
            Some((a, b, e)) => r is Ok && r->Ok_0.0 == e && r->Ok_0.1.0 == a && r->Ok_0.1.1 == b,
        },
{
    match read_int(input, 0) {
        None => Err(InputError::Malformed),
        Some((a, q)) => {
            if q < input.len() && input[q] == 44 {
                match read_int(input, q + 1) {
                    Some((b, e)) => Ok((e, (a as VertexIndex, b as VertexIndex))),
                    None => Err(InputError::Malformed),
                }
            } else {
                Err(InputError::Malformed)
            }
        },
    }
}

/// Reads a CSV header line, whatever it holds; the length of its text.
pub fn parse_column_header(input: &[u8]) -> (r: Result<(usize, ()), InputError>)
    ensures
        r is Ok,
        input@.len() > 0 ==> r->Ok_0.0 == line_stop(input@, 0),
        input@.len() == 0 ==> r->Ok_0.0 == 0,
{
    if input.len() == 0 {
        return Ok((0, ()));
    }
    let (stop, _) = line_bounds(input, 0);
    Ok((stop, ()))
}

/// Reads a comment line starting with `#`; the length of its text.
pub fn parse_meaningless_comment(input: &[u8]) -> (r: Result<(usize, ()), InputError>)
    ensures
        r is Ok <==> input@.len() > 0 && input@[0] == 35,
        r is Ok ==> r->Ok_0.0 == line_stop(input@, 0),
        r is Err ==> r == Err::<(usize, ()), InputError>(InputError::Malformed),
{
    if input.len() == 0 || input[0] != 35 {
        return Err(InputError::Malformed);
    }
    let (stop, _) = line_bounds(input, 0);
    Ok((stop, ()))
}

/// Reads the size comment `# Nodes: <n> Edges: <m>`; the number of bytes
/// read and the vertex count.
pub fn parse_size_comment(input: &[u8]) -> (r: Result<(usize, usize), InputError>)
    ensures
        match size_comment(input@) {
            None => r == Err::<(usize, usize), InputError>(InputError::Malformed),
            Some((n, f)) => r is Ok && r->Ok_0.0 == f && r->Ok_0.1 == n,
        },
{
    let nodes: Vec<u8> = vec![35u8, 32, 78, 111, 100, 101, 115, 58, 32];
    let edges: Vec<u8> = vec![32u8, 69, 100, 103, 101, 115, 58, 32];
    assert(nodes@ == nodes_tag());
    assert(edges@ == edges_tag());
    if !matches_at(input, 0, &nodes) {
        return Err(InputError::Malformed);
    }
    let e = skip_digits(input, 9);
    if e == 9 {
        return Err(InputError::Malformed);
    }
    let n = match small_value(input, 9, e) {
        Some(v) => v,
        None => {
            return Err(InputError::Malformed);
        },
    };
    if n > 2147483647 || !matches_at(input, e, &edges) {
        return Err(InputError::Malformed);
    }
    let length = input.len();
    assert(e + 8 <= length);
    let f = skip_digits(input, e + 8);
    if f == e + 8 {
        return Err(InputError::Malformed);
    }
    Ok((f, n as usize))
}

/// Reads an undirected graph from a CSV edge list on `graph_size` vertices.
pub fn parse_csv_input(graph_size: usize, input: &[u8]) -> (r: Result<Graph, InputError>)
    requires
        graph_size <= 2147483647,
        input@.len() < usize::MAX / 4,
    ensures
        match csv_at(input@) {
            None => r == Err::<Graph, InputError>(InputError::Malformed),
            Some(es) => if edges_in_range(es, graph_size as nat) {
                r is Ok && graph_of(graph_size as nat, es, r->Ok_0)
            } else {
                r == Err::<Graph, InputError>(InputError::VertexOutOfRange)
            },
        },
{
    if input.len() == 0 {
        return Err(InputError::Malformed);
    }
    let (_, start) = line_bounds(input, 0);
    match read_edge_lines(input, start, false) {
        None => Err(InputError::Malformed),
        Some(edges) => graph_from_edges(graph_size, &edges),
    }
}

/// Reads an undirected graph from a SNAP text file.
pub fn parse_txt_input(input: &[u8]) -> (r: Result<Graph, InputError>)
    requires
        input@.len() < usize::MAX / 4,
    ensures
        match txt_at(input@) {
            None => r == Err::<Graph, InputError>(InputError::Malformed),
            Some((n, es)) => if edges_in_range(es, n as nat) {
                r is Ok && graph_of(n as nat, es, r->Ok_0)
            } else {
                r == Err::<Graph, InputError>(InputError::VertexOutOfRange)
            },
        },
{
    let ghost s = input@;
    if input.len() == 0 {
        return Err(InputError::Malformed);
    }
    let (stop0, i1) = line_bounds(input, 0);
    if stop0 == 0 || input[0] != 35 || i1 >= input.len() {
        proof {
            if stop0 > 0 {
                assert(line_at(s, 0)[0] == s[0]);
            }
        }
        return Err(InputError::Malformed);
    }
    assert(line_at(s, 0)[0] == s[0]);
    let (stop1, i2) = line_bounds(input, i1);
    if stop1 == i1 || input[i1] != 35 || i2 >= input.len() {
        proof {
            if stop1 > i1 {
                assert(line_at(s, i1 as int)[0] == s[i1 as int]);
            }
        }
        return Err(InputError::Malformed);
    }
    assert(line_at(s, i1 as int)[0] == s[i1 as int]);
    let (stop2, i3) = line_bounds(input, i2);
    if i3 >= input.len() {
        return Err(InputError::Malformed);
    }
    let (stop3, i4) = line_bounds(input, i3);
    if stop3 == i3 || input[i3] != 35 {
        proof {
            if stop3 > i3 {
                assert(line_at(s, i3 as int)[0] == s[i3 as int]);
            }
        }
        return Err(InputError::Malformed);
    }
    assert(line_at(s, i3 as int)[0] == s[i3 as int]);
    let size_line = vstd::slice::slice_subrange(input, i2, stop2);
    assert(size_line@ == line_at(s, i2 as int));
    let n = match parse_size_comment(size_line) {
        Ok((f, n)) => {
            if f != size_line.len() {
                return Err(InputError::Malformed);
            }
            n
        },
        Err(e) => {
            return Err(e);
        },
    };
    match read_edge_lines(input, i4, true) {
        None => Err(InputError::Malformed),
        Some(edges) => graph_from_edges(n, &edges),
    }
}

} // verus!
