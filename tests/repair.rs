use descriptive_quotients::permutation::Permutation;
use descriptive_quotients::repair::{apply_exponents, is_implicated, merge_generators, power_generators};

#[test]
fn test_merge_generators() {
    let generators = vec![
        Permutation::new(vec![0, 1, 2, 3, 5, 4]),
        Permutation::new(vec![0, 2, 1, 3, 4, 5]),
        Permutation::new(vec![0, 2, 1, 4, 3, 5]),
        Permutation::new(vec![0, 5, 2, 4, 3, 1]),
    ];
    let core = vec![(3, vec![3, 4])];

    let expected = vec![
        Permutation::new(vec![0, 2, 5, 3, 4, 1]),
        Permutation::new(vec![0, 1, 2, 3, 5, 4]),
        Permutation::new(vec![0, 2, 1, 3, 4, 5]),
    ];
    let merged = merge_generators(generators, &core);
    assert_eq!(expected, merged);

    let generators = vec![
        Permutation::new(vec![0, 1, 2, 3, 5, 4]),
        Permutation::new(vec![0, 2, 1, 3, 4, 5]),
        Permutation::new(vec![0, 2, 1, 4, 3, 5]),
        Permutation::new(vec![0, 5, 3, 2, 4, 1]),
    ];
    let core = vec![(3, vec![3, 4])];

    let expected = vec![
        Permutation::new(vec![0, 2, 1, 4, 3, 5]),
        Permutation::new(vec![0, 1, 2, 3, 5, 4]),
        Permutation::new(vec![0, 2, 1, 3, 4, 5]),
        Permutation::new(vec![0, 5, 3, 2, 4, 1]),
    ];
    let merged = merge_generators(generators, &core);
    assert_eq!(expected, merged);
}

#[test]
fn power_generators_raises_implicated_exponents() {
    let core = vec![(0, vec![0, 1])];
    let swap = Permutation::new(vec![1, 0, 2]);
    let other = Permutation::new(vec![0, 2, 1]);
    assert!(is_implicated(&swap, &core));
    assert!(!is_implicated(&other, &core));
    let mut generators = vec![(swap.clone(), 1), (other.clone(), 1), (swap.clone(), 0)];
    power_generators(&mut generators, &core);
    assert_eq!(vec![(swap.clone(), 2), (other.clone(), 1), (swap.clone(), 0)], generators);
    let (powers, live) = apply_exponents(generators);
    assert!(powers[0].is_identity());
    assert_eq!(vec![0, 2, 1], powers[1].raw);
    // An exponent of zero gives the identity, which leaves the list.
    assert!(powers[2].is_identity());
    assert_eq!(vec![(other, 1)], live);
}

#[test]
fn merged_generators_keep_what_was_given() {
    let core = vec![(3, vec![3, 4])];
    // A lone implicated generator comes back as given, cycles included.
    let lone = Permutation::new_with_cycles(vec![0, 1, 2, 4, 3, 5]);
    let other = Permutation::new_with_cycles(vec![0, 2, 1, 3, 4, 5]);
    let merged = merge_generators(vec![other.clone(), lone.clone()], &core);
    assert_eq!(vec![lone.clone(), other.clone()], merged);
    // Two implicated generators become one new permutation without cycles.
    let second = Permutation::new_with_cycles(vec![0, 5, 2, 4, 3, 1]);
    let merged = merge_generators(vec![lone, other.clone(), second], &core);
    assert_eq!(vec![0, 5, 2, 3, 4, 1], merged[0].raw);
    assert!(merged[0].cycles.is_none());
    assert_eq!(other, merged[1]);
    assert_eq!(2, merged.len());
}
