use std::collections::HashSet;

use fnv::FnvHashSet;
use rand::rngs::StdRng;
use rand::{RngExt, SeedableRng};

use genetic_privacy::set_intersection::nonzero_intersection;

// from https://users.rust-lang.org/t/how-to-serialize-a-u32-into-byte-array/986/5?u=paul-e
fn transform_u32_to_array_of_u8(x: u32) -> [u8; 4] {
    let b1: u8 = ((x >> 24) & 0xff) as u8;
    let b2: u8 = ((x >> 16) & 0xff) as u8;
    let b3: u8 = ((x >> 8) & 0xff) as u8;
    let b4: u8 = (x & 0xff) as u8;
    return [b1, b2, b3, b4];
}

fn get_founder_pair_disjoint(seed: u32) -> (Vec<u32>, Vec<u32>) {
    let mut seed_bytes = [0; 32];
    seed_bytes[0..4].copy_from_slice(&transform_u32_to_array_of_u8(seed));
    let mut rng: StdRng = SeedableRng::from_seed(seed_bytes);

    let mut founders = FnvHashSet::default();
    while founders.len() < 600 {
        let num = rng.random_range(0..100000) as u32;
        founders.insert(num);
    }
    let founder_vec: Vec<u32> = founders.iter().map(|x| *x).collect();
    (founder_vec[0..300].to_vec(), founder_vec[300..].to_vec())
}

fn get_founder_pair(seed: Option<u32>) -> (Vec<u32>, Vec<u32>) {
    let unwraped_seed = seed.unwrap_or(0);
    get_founder_pair_disjoint(unwraped_seed)
}

#[test]
fn test_same_output() {
    println!("Running same output.");
    for i in 0..1000 {
        println!("{}", i);
        let (mut founders_a, mut founders_b) = get_founder_pair(Some(i));
        founders_a.sort();
        founders_b.sort();

        let founders_a_set: HashSet<u32> = founders_a.iter().cloned().collect();
        let founders_b_set: HashSet<u32> = founders_b.iter().cloned().collect();
        assert!(
            nonzero_intersection(&founders_a, &founders_b)
                == founders_a_set.intersection(&founders_b_set).next().is_some()
        );
    }
}

#[test]
fn test_single_element_intersection() {
    let a = vec![90];
    let b = vec![15, 25, 35, 45, 55, 65, 75, 85, 90];
    assert!(nonzero_intersection(&a, &b));
    for i in 0..9 {
        assert!(nonzero_intersection(&a, &b[1..]), "b slice: {:?}\n", &b[i..]);
    }
}

#[test]
fn test_sorted_arrays_with_common_tail() {
    let a = vec![10, 20, 30, 40, 50, 60, 70, 80, 90];
    let b = vec![15, 22, 35, 45, 55, 65, 75, 85, 90];
    assert!(nonzero_intersection(&a, &b));
}

#[test]
fn test_disjoint_arrays() {
    let a = vec![10, 20, 30];
    let b = vec![15, 25, 35];
    assert!(!nonzero_intersection(&a, &b));
}
