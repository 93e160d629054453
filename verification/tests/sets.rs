use braid_crypto::braid::Braid;
use braid_crypto::permutation::{compose, from_slice_slow, Permutation, VecPermutation};
use braid_crypto::error::BraidError;

fn items(s: &indexmap::IndexSet<usize>) -> Vec<usize> {
    s.iter().cloned().collect()
}

#[test]
fn impliments_starting_finishing_set_tests() {
    let b = Braid::make_half_twist(6);
    println!("{:?}", b.starting_set());
    println!("{:?}", b.finishing_set());
    println!("");
    let b1 = Braid::make_positive(vec![2, 1, 3, 2, 1], 4);
    let b2 = Braid::make_positive(vec![1, 2], 4);

    println!("{:?}, {:?}", b1.starting_set(), b2.starting_set());
    println!("{:?}, {:?}", b1.finishing_set(), b2.finishing_set());
    println!("");

    let b1 = Braid::make_positive(vec![1, 2], 3);
    let b2 = Braid::make_positive(vec![2, 1, 2], 3);
    println!("{:?}, {:?}", b1.starting_set(), b2.starting_set());
    println!("{:?}, {:?}", b1.finishing_set(), b2.finishing_set());
}

#[test]
fn mod_starting_finishing_set_tests() {
    let b = Braid::make_half_twist(6);
    println!("{:?}", b.starting_set());
    println!("{:?}", b.finishing_set());
    println!();
    let b1 = Braid::from_sigmas(&[2, 1, 3, 2, 1], 4).unwrap();
    let b2 = Braid::from_sigmas(&[1, 2], 4).unwrap();

    println!("{:?}, {:?}", b1.starting_set(), b2.starting_set());
    println!("{:?}, {:?}", b1.finishing_set(), b2.finishing_set());
    println!();

    let b1 = Braid::from_sigmas(&vec![1, 2], 3).unwrap();
    let b2 = Braid::from_sigmas(&vec![2, 1, 2], 3).unwrap();
    println!("{:?}, {:?}", b1.starting_set(), b2.starting_set());
    println!("{:?}, {:?}", b1.finishing_set(), b2.finishing_set());
}

#[test]
fn sets_of_the_half_twist_are_full() {
    let b = Braid::make_half_twist(6);
    assert_eq!(items(&b.starting_set().unwrap()), vec![1, 2, 3, 4, 5]);
    assert_eq!(items(&b.finishing_set().unwrap()), vec![1, 2, 3, 4, 5]);
    assert_eq!(b.as_vec(), vec![6, 5, 4, 3, 2, 1]);
    assert!(b.is_twist());
    assert!(!b.is_identity());
}

#[test]
fn sets_of_small_braids() {
    let b1 = Braid::from_sigmas(&[2, 1, 3, 2, 1], 4).unwrap();
    assert_eq!(b1.as_vec(), vec![4, 3, 1, 2]);
    assert_eq!(items(&b1.starting_set().unwrap()), vec![2, 3]);
    assert_eq!(items(&b1.finishing_set().unwrap()), vec![1, 2]);
    let b2 = Braid::from_sigmas(&[1, 2], 4).unwrap();
    assert_eq!(items(&b2.starting_set().unwrap()), vec![1]);
    assert_eq!(items(&b2.finishing_set().unwrap()), vec![2]);
    let b3 = Braid::from_sigmas(&[2, 1, 2], 3).unwrap();
    assert_eq!(items(&b3.starting_set().unwrap()), vec![1, 2]);
    assert_eq!(items(&b3.finishing_set().unwrap()), vec![1, 2]);
    let e = Braid::from_sigmas(&[], 3).unwrap();
    assert!(e.starting_set().unwrap().is_empty());
    assert!(e.finishing_set().unwrap().is_empty());
    let one = Braid::from_sigmas(&[3], 5).unwrap();
    assert_eq!(items(&one.starting_set().unwrap()), vec![3]);
    assert_eq!(items(&one.finishing_set().unwrap()), vec![3]);
}

#[test]
fn sets_refuse_bad_words() {
    let b = Braid::make_positive(vec![4], 4);
    assert_eq!(b.starting_set().err(), Some(BraidError::InvalidGenerator));
    assert_eq!(b.finishing_set().err(), Some(BraidError::InvalidGenerator));
    let z = Braid::make_positive(vec![0], 4);
    assert_eq!(z.finishing_set().err(), Some(BraidError::InvalidGenerator));
}

#[test]
fn test_module() {
    let perm1: VecPermutation = vec![4, 2, 3, 1];
    let mut perm2 = VecPermutation::id(4);
    perm2.swap_(2, 3);
    let composed: VecPermutation = compose(&perm1, &perm2).unwrap();
    assert_eq!(composed, vec![4, 3, 2, 1]);
}

#[test]
fn composition_needs_one_size() {
    let perm1: VecPermutation = vec![2, 1];
    let perm2 = VecPermutation::id(3);
    let r: Result<VecPermutation, BraidError> = compose(&perm1, &perm2);
    assert_eq!(r.err(), Some(BraidError::MismatchedStrands));
    let b = Braid::from_sigmas(&[1, 2], 3).unwrap();
    let c: Braid = compose(&b, &perm2).unwrap();
    assert_eq!(c.as_vec(), b.as_vec());
}

#[test]
fn array_permutation_answers() {
    let p: VecPermutation = vec![3, 1, 2];
    assert_eq!(p.size(), 3);
    assert_eq!(p.position(3), 1);
    assert_eq!(p.position(2), 3);
    assert_eq!(p.follow_ending(2), 1);
    assert!(!p.is_identity());
    assert!(!p.is_twist());
    assert!(VecPermutation::id(4).is_identity());
    let t: VecPermutation = vec![3, 2, 1];
    assert!(t.is_twist());
    assert_eq!(<VecPermutation as Permutation>::from_slice(&[2, 1]).unwrap(), vec![2, 1]);
    assert_eq!(
        <VecPermutation as Permutation>::from_slice(&[2, 2]).err(),
        Some(BraidError::InvalidGenerator)
    );
}

#[test]
fn braid_permutation_answers() {
    let b = Braid::from_sigmas(&[1, -2], 3).unwrap();
    assert_eq!(b.size(), 3);
    assert_eq!(b.as_vec(), vec![2, 3, 1]);
    assert_eq!(b.position(1), 3);
    assert_eq!(b.position(2), 1);
    assert_eq!(b.follow_ending(1), 2);
    assert!(Braid::id(5).is_identity());
    assert!(Braid::id(5).gens.is_empty());
    let mut s = Braid::id(4);
    s.swap_(1, 4);
    assert_eq!(s.as_vec(), vec![4, 2, 3, 1]);
    s.swap_(3, 2);
    assert_eq!(s.as_vec(), vec![4, 3, 2, 1]);
    s.swap_(2, 2);
    assert_eq!(s.as_vec(), vec![4, 3, 2, 1]);
}

#[test]
fn slow_construction_agrees() {
    let v = vec![1, 3, 7, 2, 5, 4, 6];
    let p: VecPermutation = from_slice_slow(&v).unwrap();
    assert_eq!(p, v);
    let b: Braid = from_slice_slow(&v).unwrap();
    assert_eq!(b.as_vec(), v);
    let bad: Result<VecPermutation, BraidError> = from_slice_slow(&[1, 3, 3]);
    assert_eq!(bad.err(), Some(BraidError::InvalidGenerator));
    let bad: Result<VecPermutation, BraidError> = from_slice_slow(&[1, 4, 2]);
    assert_eq!(bad.err(), Some(BraidError::InvalidGenerator));
}
