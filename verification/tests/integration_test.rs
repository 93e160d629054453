use braid_crypto::braid::garside::left_slide_delta_form;
use braid_crypto::braid::{BrGen, Braid};
use braid_crypto::permutation::Permutation;

#[test]
fn test_garsides_mutations() {
    let b = Braid::random_positive(20, 10, 3, 2, 10).unwrap();
    let mut c = b.clone();
    c.mutate(50).unwrap();

    let s1 = format!("{}", b.as_garside_form().unwrap().to_string());
    let s2 = format!("{}", c.as_garside_form().unwrap().to_string());
    assert_eq!(s1, s2);
}

#[test]
fn test_key_exchange() {
    for i in 0..2 {
        println!("trial {}", i);
        println!("computing random braids...");
        let public = Braid::random_positive(15, 5, 2, 0, 10).unwrap();

        let mut s_alice = Braid::random_positive(7, 3, 2, 1, 10).unwrap();
        let mut r_bob = Braid::random_positive(7, 3, 2, 1, 10).unwrap();

        s_alice.n = 15;
        r_bob.n = 15;

        r_bob.shift();

        println!("computing public messages...");
        let p_prime = s_alice.clone() * public.clone() * s_alice.inverse();
        let p_prime_prime = r_bob.clone() * public.clone() * r_bob.inverse();

        println!("computing shared keys...");
        let k_alice = s_alice.clone() * p_prime_prime * s_alice.inverse();
        let k_bob = r_bob.clone() * p_prime * r_bob.inverse();

        println!("computing reduced form k1...");
        let k1 = k_alice.as_garside_form().unwrap();
        println!("computing reduced form k2...");
        let k2 = k_bob.as_garside_form().unwrap();

        println!("results:\n{}\n{}", k1.to_string(), k2.to_string());

        assert_eq!(k1.to_string(), k2.to_string());
    }
}

#[test]
fn test_slides() {
    let braid1 = Braid::from_sigmas(&[1, -3, 2], 4).unwrap();
    let braid2 = Braid::from_sigmas(&[2, 3, 1], 4).unwrap();
    let sum = braid1 * braid2;

    let gform = sum.as_garside_form().unwrap();
    println!("{}", gform.to_string());
    // outputs: [-1;(4, 3, 1, 2), (2, 3, 1, 4), (3, 1, 4, 2)]
}

#[test]
fn slides_print_as_recorded() {
    let braid1 = Braid::from_sigmas(&[1, -3, 2], 4).unwrap();
    let braid2 = Braid::from_sigmas(&[2, 3, 1], 4).unwrap();
    let sum = braid1 * braid2;
    assert_eq!(
        sum.as_garside_form().unwrap().to_string(),
        "[-1;(4, 3, 1, 2), (2, 3, 1, 4), (3, 1, 4, 2)]"
    );
}

fn samples() -> Vec<Braid> {
    vec![
        Braid::from_sigmas(&[1, -3, 2], 4).unwrap(),
        Braid::from_sigmas(&[2, 1, 2, 1, 2, 2, 2], 3).unwrap(),
        Braid::from_sigmas(&[1, 2, 3, 4, -2, 3, 1, -4, -4, 2, 2], 5).unwrap(),
        Braid::from_sigmas(&[-1, -2, -1, -1, 2], 3).unwrap(),
        Braid::from_sigmas(&[3, 3, 2, 1, 3, 2, 2, 1, 1, 3], 4).unwrap(),
        Braid::from_sigmas(&[5, 4, 3, 2, 1, 1, 2, 3, 4, 5, -3, -3], 6).unwrap(),
        Braid::from_sigmas(&[], 4).unwrap(),
    ]
}

fn power_of_twist(p: i128, n: usize) -> Braid {
    let mut out = Braid::from_sigmas(&[], n).unwrap();
    let step = if p < 0 { Braid::make_half_twist(n).inverse() } else { Braid::make_half_twist(n) };
    let mut k = 0;
    while k < p.abs() {
        out = out * step.clone();
        k += 1;
    }
    out
}

#[test]
fn product_is_associative_in_print() {
    let s = samples();
    let (a, b, c) = (s[0].clone(), s[4].clone(), Braid::from_sigmas(&[-2, 3, 3], 4).unwrap());
    let left = (a.clone() * b.clone()) * c.clone();
    let right = a * (b * c);
    assert_eq!(left.gens, right.gens);
    assert_eq!(
        left.as_garside_form().unwrap().to_string(),
        right.as_garside_form().unwrap().to_string()
    );
}

#[test]
fn normal_form_is_idempotent() {
    for w in samples() {
        let g = w.as_garside_form().unwrap();
        let mut rebuilt = power_of_twist(g.delta_exp(), w.n);
        for f in g.permutations() {
            rebuilt = rebuilt * Braid::from_slice(&f[..]).unwrap();
        }
        assert_eq!(rebuilt.as_garside_form().unwrap().to_string(), g.to_string());
    }
}

#[test]
fn delta_slide_round_trip() {
    for w in samples() {
        let (p, positive) = left_slide_delta_form(&w).unwrap();
        let rebuilt = power_of_twist(p, w.n) * positive;
        assert_eq!(
            rebuilt.as_garside_form().unwrap().to_string(),
            w.as_garside_form().unwrap().to_string()
        );
    }
}

#[test]
fn factors_are_weighted_and_admissible() {
    for w in samples() {
        let g = w.as_garside_form().unwrap();
        let fs = g.permutations();
        for f in fs.iter() {
            assert_eq!(f.len(), w.n);
            assert!(!f.is_identity());
            assert!(!f.is_twist());
        }
        for k in 1..fs.len() {
            let a = Braid::from_slice(&fs[k - 1][..]).unwrap();
            let b = Braid::from_slice(&fs[k][..]).unwrap();
            let finishing = a.finishing_set().unwrap();
            let starting = b.starting_set().unwrap();
            assert!(finishing.is_superset(&starting));
        }
        assert_eq!(g.len(), fs.len());
        if g.len() > 0 {
            assert_eq!(g.factor(0), &fs[0]);
        }
    }
}

#[test]
fn key_exchange_on_fixed_keys() {
    let public = Braid::from_sigmas(&[1, 2, 3, 4, 5, 6, 7], 8).unwrap();
    let mut s = Braid::from_sigmas(&[1, 2, 2, 1, 2], 3).unwrap();
    let mut r = Braid::from_sigmas(&[2, 1, 1, 2], 3).unwrap();
    s.n = 8;
    r.n = 8;
    r.shift();
    let from_alice = s.clone() * public.clone() * s.inverse();
    let from_bob = r.clone() * public.clone() * r.inverse();
    let ka = s.clone() * from_bob * s.inverse();
    let kb = r.clone() * from_alice * r.inverse();
    assert_eq!(
        ka.as_garside_form().unwrap().to_string(),
        kb.as_garside_form().unwrap().to_string()
    );
}

fn inversions(e: &[usize]) -> i128 {
    let mut count = 0;
    for q in 0..e.len() {
        for p in 0..q {
            if e[p] > e[q] {
                count += 1;
            }
        }
    }
    count
}

#[test]
fn normal_form_keeps_the_exponent_sum() {
    for w in samples() {
        let mut sum: i128 = 0;
        for g in w.iter() {
            match g {
                BrGen::Sigma(_) => sum += 1,
                BrGen::SigmaInv(_) => sum -= 1,
            }
        }
        let g = w.as_garside_form().unwrap();
        let all_pairs = (w.n * (w.n - 1) / 2) as i128;
        let mut of_form = g.delta_exp() * all_pairs;
        for f in g.permutations() {
            of_form += inversions(f);
        }
        assert_eq!(of_form, sum);
    }
    let w = Braid::from_sigmas(&[1, -3, 2], 4).unwrap();
    let g = w.as_garside_form().unwrap();
    assert_eq!(g.delta_exp() * 6 + inversions(&g.permutations()[0]) + inversions(&g.permutations()[1]), 1);
}

#[test]
fn normal_form_keeps_the_permutation() {
    for w in samples() {
        let g = w.as_garside_form().unwrap();
        let mut rebuilt = power_of_twist(g.delta_exp(), w.n);
        for f in g.permutations() {
            rebuilt = rebuilt * Braid::from_slice(&f[..]).unwrap();
        }
        assert_eq!(rebuilt.as_vec(), w.as_vec());
    }
}

#[test]
fn canonical_words_are_as_long_as_their_inversions() {
    let perms: Vec<Vec<usize>> = vec![
        vec![3, 4, 1, 2],
        vec![1, 3, 7, 2, 5, 4, 6],
        vec![4, 3, 2, 1],
        vec![1, 2, 3],
    ];
    for p in perms {
        let b = Braid::from_slice(&p[..]).unwrap();
        assert_eq!(b.gens.len() as i128, inversions(&p));
        assert_eq!(break_up(&b), if p.iter().enumerate().all(|(k, v)| *v == k + 1) { 0 } else { 1 });
    }
}

fn break_up(b: &Braid) -> usize {
    braid_crypto::braid::segments::break_into_permutations(b).unwrap().len()
}
