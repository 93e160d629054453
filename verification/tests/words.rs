use braid_crypto::braid::{BrGen, Braid};
use braid_crypto::error::BraidError;

#[test]
fn reduction_tests() {
    let b = Braid::make_positive(vec![1, 2, 3], 3);
    let b2 = b.inverse();
    let mut b3 = b + b2;
    b3.free_reduce();
    println!("{:?}", b3);
}

#[test]
fn delta_tests() {
    let d = Braid::make_half_twist(4);
    println!("{:?}", d);
}

#[test]
fn half_twist_is_made_of_descending_runs() {
    let d = Braid::make_half_twist(4);
    assert_eq!(d.gens, Braid::make_positive(vec![1, 2, 1, 3, 2, 1], 4).gens);
    assert!(Braid::make_half_twist(1).gens.is_empty());
    assert!(Braid::make_half_twist(0).gens.is_empty());
}

#[test]
fn a_word_times_its_inverse_reduces_to_nothing() {
    let b = Braid::make_positive(vec![1, 2, 3], 4);
    let b2 = b.inverse();
    assert_eq!(
        b2.gens,
        vec![BrGen::SigmaInv(3), BrGen::SigmaInv(2), BrGen::SigmaInv(1)]
    );
    let b3 = b + b2;
    assert!(b3.gens.is_empty());
    assert_eq!(b3.n, 4);
}

#[test]
fn one_pass_strikes_out_what_it_meets() {
    let mut b = Braid::from_sigmas(&[1, 2, -2, -1, 3], 4).unwrap();
    assert!(b.free_reduce_once());
    assert_eq!(b.gens, Braid::from_sigmas(&[1, -1, 3], 4).unwrap().gens);
    assert!(b.free_reduce_once());
    assert_eq!(b.gens, Braid::from_sigmas(&[3], 4).unwrap().gens);
    assert!(!b.free_reduce_once());
    assert_eq!(b.gens, Braid::from_sigmas(&[3], 4).unwrap().gens);
    let mut c = Braid::from_sigmas(&[-1, 1], 4).unwrap();
    assert!(!c.free_reduce_once());
    assert_eq!(c.gens.len(), 2);
}

#[test]
fn inverse_is_an_involution_and_shift_mirrors() {
    let b = Braid::from_sigmas(&[1, -3, 2], 4).unwrap();
    assert_eq!(b.inverse().inverse(), b);
    let mut c = b.clone();
    c.invert();
    assert_eq!(c.gens, Braid::from_sigmas(&[-2, 3, -1], 4).unwrap().gens);
    let mut s = b.clone();
    s.shift();
    assert_eq!(s.gens, Braid::from_sigmas(&[3, -1, 2], 4).unwrap().gens);
    assert_eq!(BrGen::Sigma(1).shift(4), BrGen::Sigma(3));
    assert_eq!(BrGen::SigmaInv(2).inverse(), BrGen::Sigma(2));
}

#[test]
fn product_needs_one_strand_count() {
    let a = Braid::from_sigmas(&[1], 3).unwrap();
    let b = Braid::from_sigmas(&[1], 4).unwrap();
    assert_eq!(a.multiply(&b).err(), Some(BraidError::MismatchedStrands));
    let c = Braid::from_sigmas(&[-2], 3).unwrap();
    assert_eq!(a.multiply(&c).unwrap().gens, vec![BrGen::Sigma(1), BrGen::SigmaInv(2)]);
    assert_eq!((a * c).gens, vec![BrGen::Sigma(1), BrGen::SigmaInv(2)]);
}

#[test]
fn generator_permutes_a_position_array() {
    let mut v = vec![1, 2, 3];
    assert_eq!(BrGen::Sigma(2).permute(&mut v), Ok(()));
    assert_eq!(v, vec![1, 3, 2]);
    assert_eq!(BrGen::SigmaInv(2).permute(&mut v), Err(BraidError::NonPositiveWord));
    assert_eq!(BrGen::Sigma(3).permute(&mut v), Err(BraidError::InvalidGenerator));
    assert_eq!(v, vec![1, 3, 2]);
    let b = Braid::from_sigmas(&[1, 2], 3).unwrap();
    let mut w = vec![1, 2, 3];
    assert_eq!(b.permute(&mut w), Ok(()));
    assert_eq!(w, vec![2, 3, 1]);
}
