use braid_crypto::braid::random::product_of_permutations;
use braid_crypto::braid::{BrGen, Braid};
use braid_crypto::error::BraidError;
use braid_crypto::permutation::Permutation;

#[test]
fn random_tests() {
    let b = Braid::random_positive(60, 30, 3, 3, 10).unwrap();
    println!("{:?}", b);
    println!("{}", b.as_garside_form().unwrap().to_string());
}

#[test]
fn mutation_tests() {
    let mut b = Braid::from_sigmas(&[3, 1, 1, 4, 1, 3, 2, 4], 5).unwrap();
    b.swap_mutation();
    println!("{:?}", b);

    let mut c = Braid::from_sigmas(&[1, 2, 1, 2, 3, 4, 3], 5).unwrap();
    c.exchange_mutation();
    println!("{:?}", c);
}

#[test]
fn mutations_are_exact() {
    let mut b = Braid::from_sigmas(&[3, 1, 1, 4, 1, 3, 2, 4], 5).unwrap();
    b.swap_mutation();
    assert_eq!(b.gens, Braid::from_sigmas(&[1, 1, 3, 1, 4, 3, 4, 2], 5).unwrap().gens);

    let mut c = Braid::from_sigmas(&[1, 2, 1, 2, 3, 4, 3], 5).unwrap();
    c.exchange_mutation();
    assert_eq!(c.gens, Braid::from_sigmas(&[2, 1, 2, 2, 4, 3, 4], 5).unwrap().gens);

    let mut d = Braid::from_sigmas(&[-1, -2, -1, 3], 5).unwrap();
    d.exchange_mutation();
    assert_eq!(d.gens, Braid::from_sigmas(&[-2, -1, -2, 3], 5).unwrap().gens);

    let mut e = Braid::from_sigmas(&[1, 2], 4).unwrap();
    e.insert_mutation(1, 3);
    assert_eq!(
        e.gens,
        vec![BrGen::Sigma(1), BrGen::Sigma(3), BrGen::SigmaInv(3), BrGen::Sigma(2)]
    );
    let mut f = Braid::from_sigmas(&[], 4).unwrap();
    f.swap_mutation();
    f.exchange_mutation();
    assert!(f.gens.is_empty());
}

#[test]
fn each_rewrite_keeps_the_normal_form() {
    let b = Braid::from_sigmas(&[3, 1, -2, 4, 1, 2, 1, 3, -4, 2], 5).unwrap();
    let s = b.as_garside_form().unwrap().to_string();
    let mut c = b.clone();
    c.swap_mutation();
    assert_eq!(c.as_garside_form().unwrap().to_string(), s);
    let mut d = b.clone();
    d.exchange_mutation();
    assert_ne!(d.gens, b.gens);
    assert_eq!(d.as_garside_form().unwrap().to_string(), s);
    for idx in 0..=b.gens.len() {
        let mut e = b.clone();
        e.insert_mutation(idx, 2);
        assert_eq!(e.as_garside_form().unwrap().to_string(), s);
    }
}

#[test]
fn random_braids_are_positive_and_in_range() {
    for _ in 0..20 {
        let b = Braid::random_positive(7, 4, 3, 1, 10).unwrap();
        assert_eq!(b.n, 7);
        for g in b.iter() {
            match g {
                BrGen::Sigma(i) => assert!(1 <= *i && *i < 7),
                BrGen::SigmaInv(_) => panic!("an inverse generator"),
            }
        }
        // at most three crossings in each of the four factors
        assert!(b.gens.len() <= 12);
    }
    let all_missed = Braid::random_positive(7, 4, 3, 1, 1).unwrap();
    assert!(all_missed.gens.is_empty());
    let one_strand = Braid::random_positive(1, 4, 3, 0, 1).unwrap();
    assert!(one_strand.gens.is_empty());
}

#[test]
fn mutate_keeps_strands_and_range() {
    let mut b = Braid::from_sigmas(&[1, 2, 1, 3], 4).unwrap();
    b.mutate(40).unwrap();
    assert_eq!(b.n, 4);
    assert!(b.gens.len() >= 4);
    assert!(b.gens.len() % 2 == 0);
    for g in &b.gens {
        let i = match g {
            BrGen::Sigma(i) => *i,
            BrGen::SigmaInv(i) => *i,
        };
        assert!(1 <= i && i < 4);
    }
    let mut e = Braid::from_sigmas(&[], 3).unwrap();
    e.mutate(10).unwrap();
    assert_eq!(e.as_garside_form().unwrap().to_string(), "[0;]");
}

#[test]
fn product_of_permutations_is_exact() {
    let perms = vec![vec![3, 4, 1, 2], vec![1, 2, 4, 3]];
    let b = product_of_permutations(4, &perms).unwrap();
    assert_eq!(b.gens, Braid::from_sigmas(&[2, 1, 3, 2, 3], 4).unwrap().gens);
    assert_eq!(b.n, 4);
    let bad = vec![vec![1, 2, 3]];
    assert_eq!(product_of_permutations(4, &bad).err(), Some(BraidError::InvalidGenerator));
    let worse = vec![vec![1, 1, 3, 4]];
    assert_eq!(product_of_permutations(4, &worse).err(), Some(BraidError::InvalidGenerator));
    assert!(product_of_permutations(4, &vec![]).unwrap().gens.is_empty());
    assert_eq!(b.as_vec(), vec![3, 4, 2, 1]);
}
