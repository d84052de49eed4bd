use descriptive_quotients::dictionary::SATEncodingDictionary;

#[test]
fn test_pair() {
    let orbit = 0x12345678;
    let vertex = 0x07654321;
    let pair = SATEncodingDictionary::pairing(orbit, vertex);
    assert_eq!(0x1234567807654321, pair);
}

#[test]
fn test_unpair() {
    let (orbit, vertex) = SATEncodingDictionary::unpair(0x1234567801234567);
    assert_eq!(0x12345678, orbit);
    assert_eq!(0x01234567, vertex);
}

#[test]
fn literals_are_allocated_on_first_use() {
    let mut dict = SATEncodingDictionary::default();
    assert_eq!(0, dict.variable_number());
    assert_eq!(1, dict.lookup_pairing(5, 7));
    assert_eq!(2, dict.lookup_pairing(5, 8));
    assert_eq!(1, dict.lookup_pairing(5, 7));
    assert_eq!(2, dict.get_literal(5, 8));
    assert_eq!(2, dict.variable_number());
    assert_eq!(vec![(-1, -1), (5, 7), (5, 8)], dict.destroy());
}
