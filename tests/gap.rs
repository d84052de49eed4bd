use descriptive_quotients::gap::{
    parse_cycle, parse_generators, parse_permutation, parse_representatives, GapParseError,
};
use descriptive_quotients::permutation::Permutation;

#[test]
fn test_parse_cycle() -> Result<(), GapParseError> {
    let cycle = "(1, 11,        13)".as_bytes();

    let expected = vec![0, 10, 12];
    let (_, parsed) = parse_cycle(cycle)?;
    assert_eq!(expected, parsed);

    Ok(())
}

#[test]
fn test_parse_permutation() -> Result<(), GapParseError> {
    let permutation = "(1,2,3,     4) 
(   23,    34,5)"
        .as_bytes();
    let cycles = vec![vec![0, 1, 2, 3], vec![22, 33, 4]];
    let size = 48;

    let expected = Permutation::from_cycles(cycles, size);
    let (_, parsed) = parse_permutation(permutation, size)?;
    assert_eq!(expected, parsed);

    Ok(())
}

#[test]
fn test_parse_permutations() -> Result<(), GapParseError> {
    let permutations = "[ (   66,   46, 54,2)(12,23),
(67,21,567, 65)
 ]"
    .as_bytes();
    let size = 1000;
    let cycles1 = vec![vec![65, 45, 53, 1], vec![11, 22]];
    let permutation1 = Permutation::from_cycles(cycles1, size);
    let cycles2 = vec![vec![66, 20, 566, 64]];
    let permutation2 = Permutation::from_cycles(cycles2, size);

    let expected = vec![permutation1, permutation2];
    let (_, parsed) = parse_generators(permutations, size)?;
    assert_eq!(expected, parsed);

    Ok(())
}

#[test]
fn test_parse_representatives() -> Result<(), GapParseError> {
    let reps = "[ (  1, 17)(  2, 18)(  3, 19)(  4, 20)(  5, 21), 
        (  9, 17, 25)( 10, 18, 26)( 11, 19, 27)( 12, 20, 28)]
[ (  1, 17)(  2, 18)(  3, 19) ]
"
    .as_bytes();
    let size = 30;
    let cycles1 = vec![
        vec![0, 16],
        vec![1, 17],
        vec![2, 18],
        vec![3, 19],
        vec![4, 20],
    ];
    let permutation1 = Permutation::from_cycles(cycles1, size);
    let cycles2 = vec![
        vec![8, 16, 24],
        vec![9, 17, 25],
        vec![10, 18, 26],
        vec![11, 19, 27],
    ];
    let permutation2 = Permutation::from_cycles(cycles2, size);
    let repr1 = vec![permutation1, permutation2];
    let cycles3 = vec![vec![0, 16], vec![1, 17], vec![2, 18]];
    let permutation3 = Permutation::from_cycles(cycles3, size);
    let repr2 = vec![permutation3];

    let expected = vec![repr1, repr2];
    let parsed = parse_representatives(reps, size)?;
    assert_eq!(expected, parsed);

    Ok(())
}

#[test]
fn cycle_notation_errors_and_fixed_points() {
    let (read, perm) = parse_permutation(b"(1,3)", 4).unwrap();
    assert_eq!(5, read);
    assert_eq!(vec![2, 1, 0, 3], perm.raw);
    assert_eq!(Err(GapParseError::InvalidCycles), parse_permutation(b"(1,5)", 4).map(|_| ()));
    assert_eq!(Err(GapParseError::InvalidCycles), parse_permutation(b"(1,2)(2,3)", 4).map(|_| ()));
    assert_eq!(Err(GapParseError::InvalidCycles), parse_permutation(b"(0,2)", 4).map(|_| ()));
    assert_eq!(Err(GapParseError::Malformed), parse_cycle(b"(1,2"));
    assert_eq!(Err(GapParseError::Malformed), parse_cycle(b"1,2)"));
    assert_eq!(Err(GapParseError::Malformed), parse_generators(b"[ (1,2), ]", 4).map(|_| ()));
    assert_eq!(Err(GapParseError::Malformed), parse_representatives(b"(1,2)", 4).map(|_| ()));
}
