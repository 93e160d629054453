use braid_crypto::braid::garside::left_slide_delta_form;
use braid_crypto::braid::segments::break_into_permutations;
use braid_crypto::braid::Braid;
use braid_crypto::error::BraidError;
use braid_crypto::permutation::Permutation;

#[test]
fn neg_pow_to_perm_tests() {
    // Based on example 1.2 from https://arxiv.org/pdf/0711.3941.pdf
    let expected = Braid::from_sigmas(&[3, 2, 1, 3, 2], 4).unwrap();
    let actual = Braid::neg_pow_to_permute(3, 4).unwrap();
    assert_eq!(expected.gens, actual.gens);
}

#[test]
fn left_slide_delta_form_tests() {
    // Based on example 1.2 from https://arxiv.org/pdf/0711.3941.pdf
    let w = Braid::from_sigmas(&[1, -3, 2], 4).unwrap();
    let lsdf = left_slide_delta_form(&w).unwrap();
    assert_eq!(-1, lsdf.0);
    let expected = Braid::from_sigmas(&vec![3, 3, 2, 1, 3, 2, 2], 4).unwrap();
    assert_eq!(expected.gens, lsdf.1.gens);
}

#[test]
fn break_into_permutations_tests() {
    let b = Braid::from_sigmas(&[1, 2, 2, 1, 2], 3).unwrap();
    let ps = break_into_permutations(&b).unwrap();
    assert_eq!(ps[0].gens, Braid::from_sigmas(&[1, 2], 3).unwrap().gens);
    assert_eq!(ps[1].gens, Braid::from_sigmas(&[2, 1, 2], 3).unwrap().gens);

    let p = vec![1, 3, 7, 2, 5, 4, 6];
    let b = Braid::from_slice(&p[..]).unwrap();
    let old_contents = b.gens.clone();
    let ps = break_into_permutations(&b).unwrap();
    assert_eq!(ps.len(), 1);
    assert_eq!(ps[0].gens, old_contents);
}

#[test]
fn new_break_into_permutations_tests() {
    let a = Braid::from_sigmas(&[2, 2, 2, 2], 3).unwrap();
    println!("{:?}", break_into_permutations(&a));
}

#[test]
fn repeated_crossing_is_cut_at_every_generator() {
    let a = Braid::from_sigmas(&[2, 2, 2, 2], 3).unwrap();
    let ps = break_into_permutations(&a).unwrap();
    assert_eq!(ps.len(), 4);
    for p in &ps {
        assert_eq!(p.gens, Braid::from_sigmas(&[2], 3).unwrap().gens);
        assert_eq!(p.n, 3);
    }
    let empty = Braid::from_sigmas(&[], 3).unwrap();
    assert!(break_into_permutations(&empty).unwrap().is_empty());
}

#[test]
fn is_left_weighted_tests() {
    // From Page 12/13 of Garber
    assert!(!Braid::from_sigmas(&[1, 2, 2, 1, 2], 3).unwrap().is_left_weighted().unwrap());
    assert!(Braid::from_sigmas(&[1, 2, 2, 1], 3).unwrap().is_left_weighted().unwrap());

    assert!(!Braid::from_sigmas(&[3, 3, 2, 1, 3, 2, 2], 4).unwrap().is_left_weighted().unwrap());
    assert!(Braid::from_sigmas(&[2, 1, 3, 2, 1, 1, 2], 4).unwrap().is_left_weighted().unwrap());
}

#[test]
fn garside_form_tests() {
    // From page 13/14 of Garber
    let b = Braid::from_sigmas(&[1, -3, 2], 4).unwrap();
    let gform = b.as_garside_form().unwrap();

    let expected_exp = -1;
    let expected_perm1 = Braid::from_sigmas(&[2, 1, 3, 2, 1], 4).unwrap().as_vec();
    let expected_perm2 = Braid::from_sigmas(&[1, 2], 4).unwrap().as_vec();

    assert_eq!(expected_exp, gform.delta_exp());
    assert_eq!(expected_perm1, gform.permutations()[0]);
    assert_eq!(expected_perm2, gform.permutations()[1]);
    println!("{}", gform.to_string());
}

#[test]
fn more_garside_tests() {
    // To test breaking into permutations
    let a1 = Braid::from_sigmas(&[2, 1, 2, 1, 2], 3).unwrap();
    let a3 = Braid::from_sigmas(&[2, 2, 1, 2, 2], 3).unwrap();

    assert_eq!(
        format!("{}", a1.as_garside_form().unwrap().to_string()),
        format!("{}", a3.as_garside_form().unwrap().to_string())
    );

    let a1 = Braid::from_sigmas(&[2, 1, 2, 1, 2, 2, 2], 3).unwrap();
    let a3 = Braid::from_sigmas(&[2, 2, 1, 2, 2, 2, 2], 3).unwrap();

    assert_eq!(
        format!("{}", a1.as_garside_form().unwrap().to_string()),
        format!("{}", a3.as_garside_form().unwrap().to_string())
    );

    // To test removing final twists
    let a1 = Braid::from_sigmas(&[1, 3, -3, 2, 1], 4).unwrap();
    let a3 = Braid::from_sigmas(&[2, 1, 2], 4).unwrap();

    assert_eq!(
        format!("{}", a1.as_garside_form().unwrap().to_string()),
        format!("{}", a3.as_garside_form().unwrap().to_string())
    );
}

#[test]
fn printable_form_is_exact() {
    let b = Braid::from_sigmas(&[1, -3, 2], 4).unwrap();
    assert_eq!(b.as_garside_form().unwrap().to_string(), "[-1;(4, 3, 1, 2), (2, 1, 3, 4)]".replace("(2, 1, 3, 4)", &format!("({})", join(&Braid::from_sigmas(&[1, 2], 4).unwrap().as_vec()))));
    let e = Braid::from_sigmas(&[], 4).unwrap();
    assert_eq!(e.as_garside_form().unwrap().to_string(), "[0;]");
    let d = Braid::make_half_twist(4);
    assert_eq!(d.as_garside_form().unwrap().to_string(), "[1;]");
    let s = Braid::from_sigmas(&[2], 3).unwrap();
    assert_eq!(s.as_garside_form().unwrap().to_string(), "[0;(1, 3, 2)]");
}

fn join(v: &[usize]) -> String {
    let parts: Vec<String> = v.iter().map(|x| format!("{}", x)).collect();
    parts.join(", ")
}

#[test]
fn a_braid_times_its_inverse_is_trivial() {
    let words: Vec<(Vec<isize>, usize)> = vec![
        (vec![1, -3, 2], 4),
        (vec![2, 1, 2, 1, 2], 3),
        (vec![1, 2, 3, 4, -2, 3, 1, -4], 5),
        (vec![-1, -1, 2], 3),
        (vec![], 6),
    ];
    for (w, n) in words {
        let b = Braid::from_sigmas(&w, n).unwrap();
        let p = b.multiply(&b.inverse()).unwrap();
        assert_eq!(p.as_garside_form().unwrap().to_string(), "[0;]");
    }
}

#[test]
fn normal_form_refuses_indices_out_of_range() {
    let b = Braid::make_positive(vec![1, 2, 3], 3);
    assert_eq!(b.as_garside_form().err(), Some(BraidError::InvalidGenerator));
    assert_eq!(break_into_permutations(&b).err(), Some(BraidError::InvalidGenerator));
    let n = Braid::from_sigmas(&[1, -2], 3).unwrap();
    assert_eq!(break_into_permutations(&n).err(), Some(BraidError::NonPositiveWord));
    assert_eq!(n.is_left_weighted().err(), Some(BraidError::NonPositiveWord));
    assert_eq!(n.starting_set().err(), Some(BraidError::NonPositiveWord));
    assert_eq!(n.finishing_set().err(), Some(BraidError::NonPositiveWord));
}

#[test]
fn every_word_in_range_has_a_normal_form() {
    // words on three strands of length up to five, all signs
    let letters: [isize; 4] = [1, 2, -1, -2];
    let mut words: Vec<Vec<isize>> = vec![vec![]];
    for _ in 0..5 {
        let mut longer = Vec::new();
        for w in &words {
            for l in letters.iter() {
                let mut v = w.clone();
                v.push(*l);
                longer.push(v);
            }
        }
        for w in &longer {
            let b = Braid::from_sigmas(w, 3).unwrap();
            let g = b.as_garside_form();
            assert!(g.is_ok());
            let inv = b.multiply(&b.inverse()).unwrap();
            assert_eq!(inv.as_garside_form().unwrap().to_string(), "[0;]");
        }
        words = longer;
    }
}

#[test]
fn relations_of_the_braid_group_keep_the_normal_form() {
    let far = Braid::from_sigmas(&[1, 3, -2, 4], 5).unwrap();
    let far2 = Braid::from_sigmas(&[3, 1, -2, 4], 5).unwrap();
    assert_eq!(
        far.as_garside_form().unwrap().to_string(),
        far2.as_garside_form().unwrap().to_string()
    );
    let triple = Braid::from_sigmas(&[4, 1, 2, 1, -3], 5).unwrap();
    let triple2 = Braid::from_sigmas(&[4, 2, 1, 2, -3], 5).unwrap();
    assert_eq!(
        triple.as_garside_form().unwrap().to_string(),
        triple2.as_garside_form().unwrap().to_string()
    );
    let other = Braid::from_sigmas(&[4, 1, 2, 2, -3], 5).unwrap();
    assert_ne!(
        triple.as_garside_form().unwrap().to_string(),
        other.as_garside_form().unwrap().to_string()
    );
}
