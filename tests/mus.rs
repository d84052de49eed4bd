use descriptive_quotients::mus::{
    MusParseError, _parse_clause_number, _parse_comment, _parse_mus, _parse_unsat,
};

#[test]
fn test_parse_comment() -> Result<(), MusParseError> {
    let comment = b"c whatever is written here, I don't really care lul \n";

    _parse_comment(comment)?;

    Ok(())
}

#[test]
fn test_parse_unsat() -> Result<(), MusParseError> {
    let unsat = b"s UNSATISFIABLE\n";

    _parse_unsat(unsat)?;

    Ok(())
}

#[test]
fn test_parse_clause_number() -> Result<(), MusParseError> {
    let clause = b"v 131\n";

    let (_, clause_number) = _parse_clause_number(clause)?;
    assert_eq!(131, clause_number);

    let clause = b"v 0\n";

    let (_, clause_number) = _parse_clause_number(clause)?;
    assert_eq!(0, clause_number);

    Ok(())
}

#[test]
fn test_parse_mus() -> Result<(), MusParseError> {
    let mus = b"c [picomus] WARNING: no output file given
s UNSATISFIABLE
c [picomus] computed MUS of size 17 out of 814 (2%)
v 20
v 36
v 80
v 96
v 156
v 158
v 168
v 170
v 650
v 652
v 669
v 671
v 680
v 700
v 707
v 725
v 734
v 0
";

    let clauses = _parse_mus(mus)?;
    let expected_clauses = vec![
        20, 36, 80, 96, 156, 158, 168, 170, 650, 652, 669, 671, 680, 700, 707, 725, 734,
    ];

    assert_eq!(expected_clauses, clauses);
    Ok(())
}

#[test]
fn malformed_mus_output_is_rejected() {
    assert_eq!(Err(MusParseError::Unterminated), _parse_mus(b"v 3\nv 4\n"));
    assert_eq!(Err(MusParseError::Malformed), _parse_mus(b"v 3\nv 0"));
    assert_eq!(Err(MusParseError::Malformed), _parse_mus(b"c only comments\n"));
    assert_eq!(Err(MusParseError::Malformed), _parse_mus(b"v 3\nc late comment\nv 0\n"));
    assert_eq!(Err(MusParseError::Malformed), _parse_mus(b"v 99999999999999999999\nv 0\n"));
    assert_eq!(Err(MusParseError::Malformed), _parse_clause_number(b"v -1\n"));
    assert_eq!(Err(MusParseError::Malformed), _parse_unsat(b"s SATISFIABLE\n"));
    assert_eq!(Err(MusParseError::Malformed), _parse_comment(b"x\n"));
    assert_eq!(Ok(vec![7]), _parse_mus(b"s UNSATISFIABLE\r\nv 7\r\nv 0\r\n"));
    assert_eq!(Ok((4, 12)), _parse_clause_number(b"v 12\nv 0\n").map(|(n, v)| (n - 1, v)));
}
