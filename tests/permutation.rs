use descriptive_quotients::permutation::Permutation;

#[test]
fn compose_test() {
    let perm1 = vec![1usize, 2, 0].into();
    let perm2 = vec![2, 1, 0].into();
    let comp = Permutation::_compose(&perm1, &perm2).unwrap();
    assert_eq!(Permutation::new(vec![0usize, 2, 1]), comp);

    let perm3 = vec![0, 1, 2, 3].into();
    let comp_error = Permutation::_compose(&perm1, &perm3);
    assert!(comp_error.is_err());
}

#[test]
fn compose_with_test() {
    let perm1 = vec![1usize, 2, 0].into();
    let mut perm2: Permutation = vec![2, 1, 0].into();
    assert!(perm2._compose_with(&perm1).is_ok());
    assert_eq!(Permutation::new(vec![0usize, 2, 1]), perm2);

    let perm3 = vec![0, 1, 2, 3].into();
    let comp_error = perm2._compose_with(&perm3);
    assert!(comp_error.is_err());
}

#[test]
fn normalize_cycle_test() {
    let mut cycle = vec![3, 5, 4, 2];
    let normalized = vec![2, 3, 5, 4];
    Permutation::normalize_cycle(&mut cycle);
    assert_eq!(normalized, cycle);
}

#[test]
fn compute_cycles_test() {
    let raw = vec![0usize, 1, 3, 2];
    let mut perm = Permutation::new(raw.clone());
    perm.compute_cycles();
    assert_eq!(raw, perm.raw);
    assert_eq!(vec![vec![2usize, 3]], perm.cycles.unwrap());
}

#[test]
fn get_subgroup_size() {
    let mut perm = Permutation::new_with_cycles(vec![4usize, 0, 1, 5, 7, 3, 2, 6]); //(0 4 7 6 2 1) (3 5)
    let subgroup_size = perm._get_order();
    assert_eq!(6, subgroup_size);

    let mut perm2 = Permutation::new(vec![1usize, 2, 0, 4, 3]); // (0 1 2) (3 4)
    let subgroup_size2 = perm2._get_order();
    assert_eq!(6, subgroup_size2);

    let mut perm3 = Permutation::new(vec![1usize, 2, 0, 4, 3, 8, 5, 6, 7]); // (0 1 2) (3 4) (5 8 7 6)
    let subgroup_size3 = perm3._get_order();
    assert_eq!(12, subgroup_size3);
}

#[test]
fn evaluate_test() {
    let perm = Permutation::new(vec![0usize, 2, 1]);
    assert_eq!(0, perm._evaluate(&0).unwrap());
    assert_eq!(2, perm._evaluate(&1).unwrap());
    assert_eq!(1, perm._evaluate(&2).unwrap());
    assert!(perm._evaluate(&3).is_none());
}

#[test]
fn apply_test() {
    let perm = Permutation::new(vec![4usize, 2, 1, 0, 3]);
    let data = vec![0usize, 2, 3, 4, 5, 1];
    let permuted_data: Vec<usize> = perm._apply(data);
    assert_eq!(vec![4usize, 1, 0, 3, 5, 2], permuted_data);
}

#[test]
fn from_cycles_test() {
    let cycles = vec![vec![1usize, 2, 3], vec![0], vec![5, 6], vec![4]];
    let perm = Permutation::_from_cycles(cycles, 7);
    let expected_perm = Permutation::new_with_cycles(vec![0, 2, 3, 1, 4, 6, 5]);
    assert_eq!(expected_perm, perm);
}

#[test]
fn powers_and_merge() {
    // (0 1 2) squared is (0 2 1); the cube is the identity.
    let perm = Permutation::new(vec![1usize, 2, 0]);
    assert_eq!(vec![2usize, 0, 1], perm._nth_power_of(2).raw);
    assert!(perm._nth_power_of(3).is_identity());
    assert_eq!(vec![0usize, 1, 2], perm._nth_power_of(0).raw);
    // A multiple of the order gives the identity.
    assert!(perm._nth_power_of_mod(6).is_identity());
    let mut zero = Permutation::new(vec![1usize, 2, 0]);
    zero._nth_power(0);
    assert!(zero.is_identity());
    let mut in_place = Permutation::new(vec![1usize, 2, 0]);
    in_place._nth_power(2);
    assert_eq!(vec![2usize, 0, 1], in_place.raw);
    // The exponent is reduced modulo the order 3: 4 acts as 1, 5 as 2.
    assert_eq!(vec![2usize, 0, 1], perm._nth_power_of_mod(5).raw);
    let mut reduced = Permutation::new(vec![1usize, 2, 0]);
    reduced._nth_power_mod(4);
    assert_eq!(vec![1usize, 2, 0], reduced.raw);
    // merge applies the first permutation first.
    let first = Permutation::new(vec![1usize, 0, 2]);
    let second = Permutation::new(vec![0usize, 2, 1]);
    let merged = Permutation::merge(&first, &second).unwrap();
    assert_eq!(vec![2usize, 0, 1], merged.raw);
    assert!(Permutation::merge(&first, &Permutation::new(vec![0usize])).is_err());
    assert_eq!(3, merged.len());
}

#[test]
fn cycles_are_canonical() {
    let mut perm = Permutation::new(vec![3usize, 2, 1, 4, 0, 5]);
    assert_eq!(vec![vec![0usize, 3, 4], vec![1, 2]], perm.get_cycles());
    let mut identity = Permutation::new(vec![0usize, 1, 2]);
    assert!(identity.get_cycles().is_empty());
}
