use braid_crypto::braid::{BrGen, Braid};
use braid_crypto::error::BraidError;
use braid_crypto::permutation::Permutation;

#[test]
fn mod_permut_tests() {
    // Based off of the Haskell permutationBraid
    let p = vec![3, 4, 1, 2];
    let b = Braid::from_slice(&p[..]).unwrap();
    let b2 = Braid::from_sigmas(&[2, 1, 3, 2], 4).unwrap();
    assert_eq!(b.gens, b2.gens);

    let p = vec![1, 3, 7, 2, 5, 4, 6];
    let b = Braid::from_slice(&p[..]).unwrap();
    let b2 = Braid::from_sigmas(&[2, 6, 5, 4, 3, 5], 7).unwrap();
    assert_eq!(b.gens, b2.gens);
}

#[test]
fn impliments_permut_tests() {
    // Based off of the Haskell permutationBraid
    let p = vec![3, 4, 1, 2];
    let b = Braid::from_permutation(p).unwrap();
    let b2 = Braid::make_positive(vec![2, 1, 3, 2], 4);
    assert_eq!(b.gens, b2.gens);

    let p = vec![1, 3, 7, 2, 5, 4, 6];
    let b = Braid::from_permutation(p).unwrap();
    let b2 = Braid::make_positive(vec![2, 6, 5, 4, 3, 5], 7);
    assert_eq!(b.gens, b2.gens);
}

#[test]
fn canonical_word_walks_back_to_its_permutation() {
    let p = vec![1, 3, 7, 2, 5, 4, 6];
    let b = Braid::from_slice(&p[..]).unwrap();
    assert_eq!(b.as_vec(), p);
    assert_eq!(b.gens[0], BrGen::Sigma(2));
    assert_eq!(b.n, 7);
}

#[test]
fn from_slice_refuses_what_is_no_permutation() {
    assert_eq!(Braid::from_slice(&[1, 1, 2]).unwrap_err(), BraidError::InvalidGenerator);
    assert_eq!(Braid::from_slice(&[0, 1, 2]).unwrap_err(), BraidError::InvalidGenerator);
    assert_eq!(Braid::from_slice(&[1, 2, 4]).unwrap_err(), BraidError::InvalidGenerator);
    assert!(Braid::from_slice(&[]).unwrap().gens.is_empty());
    assert!(Braid::from_slice(&[1]).unwrap().gens.is_empty());
}

#[test]
fn from_sigmas_refuses_zero_and_large_indices() {
    assert_eq!(Braid::from_sigmas(&[1, 0, 2], 4).unwrap_err(), BraidError::InvalidGenerator);
    assert_eq!(Braid::from_sigmas(&[4], 4).unwrap_err(), BraidError::InvalidGenerator);
    assert_eq!(Braid::from_sigmas(&[-4], 4).unwrap_err(), BraidError::InvalidGenerator);
    let b = Braid::from_sigmas(&[3, -3], 4).unwrap();
    assert_eq!(b.gens, vec![BrGen::Sigma(3), BrGen::SigmaInv(3)]);
}
