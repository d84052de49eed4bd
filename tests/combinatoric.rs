use descriptive_quotients::combinatoric::{is_active, iterate_powerset};

#[test]
fn test_is_active() {
    let x = 0b01;
    assert!(is_active(x, &0));
    assert!(!is_active(x, &1));

    let y = 0b1010101;
    assert!(is_active(y, &0));
    assert!(!is_active(y, &1));
    assert!(is_active(y, &2));
    assert!(!is_active(y, &3));
    assert!(is_active(y, &4));
    assert!(!is_active(y, &5));
    assert!(is_active(y, &6));
}

#[test]
fn test_iterate() {
    let set: Vec<i32> = vec![1, 2];
    let f = |xs: &[i32]| {
        println!("{:?}", xs);
        for x in xs[..].iter() {
            assert!(*x > 0);
        }
    };

    iterate_powerset(&set).iter().for_each(|xs| f(xs));
}

#[test]
fn powerset_lists_every_nonempty_subset() {
    let set: Vec<i32> = vec![7, 8, 9];
    let subsets = iterate_powerset(&set);
    assert_eq!(7, subsets.len());
    assert_eq!(vec![7], subsets[0]);
    assert_eq!(vec![8], subsets[1]);
    assert_eq!(vec![7, 8], subsets[2]);
    assert_eq!(vec![7, 8, 9], subsets[6]);
    assert!(iterate_powerset::<i32>(&vec![]).is_empty());
}
