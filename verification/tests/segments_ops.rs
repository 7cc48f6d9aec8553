use genetic_privacy::diploid::Diploid;
use genetic_privacy::segments::{
    common_homolog_segments, consolidate_sequence, merge_overlaps, remove_inbreeding,
    size_of_overlap, subtract_region,
};

#[test]
fn test_size_of_overlap() {
    assert_eq!(size_of_overlap(&vec![(1, 2)], (1, 2)), 1);
    assert_eq!(size_of_overlap(&vec![(1, 10)], (5, 10)), 5);
    assert_eq!(size_of_overlap(&vec![(1, 10)], (1, 5)), 4);
    assert_eq!(size_of_overlap(&vec![(1, 10)], (2, 8)), 6);
    assert_eq!(size_of_overlap(&vec![(1, 10)], (15, 20)), 0);
    assert_eq!(size_of_overlap(&vec![(10, 20)], (1, 10)), 0);

    assert_eq!(size_of_overlap(&vec![(1, 10), (20, 30), (40, 50)], (1, 10)), 9);
    assert_eq!(size_of_overlap(&vec![(1, 10), (20, 30), (40, 50)], (20, 30)), 10);
    assert_eq!(size_of_overlap(&vec![(1, 10), (20, 30), (40, 50)], (40, 50)), 10);

    assert_eq!(size_of_overlap(&vec![(1, 10), (20, 30), (40, 50)], (60, 70)), 0);
    assert_eq!(size_of_overlap(&vec![(1, 10), (20, 30), (40, 50)], (0, 1)), 0);
    assert_eq!(size_of_overlap(&vec![(1, 10), (20, 30), (40, 50)], (12, 18)), 0);

    assert_eq!(size_of_overlap(&vec![(1, 10), (20, 30), (40, 50)], (5, 10)), 5);

    assert_eq!(size_of_overlap(&vec![(1, 10), (20, 30), (40, 50)], (5, 12)), 5);

    assert_eq!(size_of_overlap(&vec![(1, 10), (20, 30), (40, 50)], (5, 25)), 10);
    assert_eq!(size_of_overlap(&vec![(1, 10), (20, 30), (40, 50)], (5, 45)), 20);
    assert_eq!(size_of_overlap(&vec![(1, 10), (20, 30), (40, 50)], (5, 50)), 25);
}

#[test]
fn test_subtract_region() {
    let mut input = vec![(1, 2)];
    subtract_region(&mut input, &(1, 2));
    assert_eq!(input, vec![]);

    input = vec![(1, 10)];
    subtract_region(&mut input, &(5, 10));
    assert_eq!(input, vec![(1, 5)]);

    input = vec![(1, 10)];
    subtract_region(&mut input, &(1, 5));
    assert_eq!(input, vec![(5, 10)]);

    input = vec![(1, 10)];
    subtract_region(&mut input, &(2, 8));
    assert_eq!(input, vec![(1, 2), (8, 10)]);

    input = vec![(1, 10)];
    subtract_region(&mut input, &(15, 20));
    assert_eq!(input, vec![(1, 10)]);

    input = vec![(10, 20)];
    subtract_region(&mut input, &(1, 10));
    assert_eq!(input, vec![(10, 20)]);

    input = vec![(1, 10), (20, 30), (40, 50)];
    subtract_region(&mut input, &(1, 10));
    assert_eq!(input, vec![(20, 30), (40, 50)]);

    input = vec![(1, 10), (20, 30), (40, 50)];
    subtract_region(&mut input, &(20, 30));
    assert_eq!(input, vec![(1, 10), (40, 50)]);

    input = vec![(1, 10), (20, 30), (40, 50)];
    subtract_region(&mut input, &(40, 50));
    assert_eq!(input, vec![(1, 10), (20, 30)]);

    input = vec![(1, 10), (20, 30), (40, 50)];
    subtract_region(&mut input, &(5, 10));
    assert_eq!(input, vec![(1, 5), (20, 30), (40, 50)]);

    input = vec![(1, 10), (20, 30), (40, 50)];
    subtract_region(&mut input, &(5, 12));
    assert_eq!(input, vec![(1, 5), (20, 30), (40, 50)]);

    input = vec![(1, 10), (20, 30), (40, 50)];
    subtract_region(&mut input, &(5, 25));
    assert_eq!(input, vec![(1, 5), (25, 30), (40, 50)]);

    input = vec![(1, 10), (20, 30), (40, 50)];
    subtract_region(&mut input, &(5, 45));
    assert_eq!(input, vec![(1, 5), (45, 50)]);

    input = vec![(1, 10), (20, 30), (40, 50)];
    subtract_region(&mut input, &(5, 50));
    assert_eq!(input, vec![(1, 5)]);
}

#[test]
fn test_merge_overlaps() {
    let empty: Vec<(u32, u32)> = vec![];
    assert_eq!(merge_overlaps(empty.clone(), empty.clone()), vec![]);
    assert_eq!(merge_overlaps(empty.clone(), vec![(1, 2)]), vec![(1, 2)]);
    assert_eq!(merge_overlaps(vec![(1, 2)], empty.clone()), vec![(1, 2)]);

    assert_eq!(merge_overlaps(vec![(1, 2)], vec![(1, 2)]), vec![(1, 2)]);
    assert_eq!(merge_overlaps(vec![(1, 2)], vec![(4, 5)]), vec![(1, 2), (4, 5)]);
    assert_eq!(merge_overlaps(vec![(4, 5)], vec![(1, 2)]), vec![(1, 2), (4, 5)]);
    assert_eq!(merge_overlaps(vec![(1, 2)], vec![(1, 4)]), vec![(1, 4)]);
    assert_eq!(merge_overlaps(vec![(1, 4)], vec![(1, 2)]), vec![(1, 4)]);

    assert_eq!(
        merge_overlaps(vec![(1, 2), (5, 8), (10, 15), (20, 25)], vec![(9, 18)]),
        vec![(1, 2), (5, 8), (9, 18), (20, 25)]
    );
}

#[test]
fn test_remove_inbreeding() {
    assert_eq!(
        remove_inbreeding(&mut vec![(10, 20)], &mut vec![(10, 20)], &vec![(10, 20)]),
        vec![(10, 20)]
    );
    assert_eq!(
        remove_inbreeding(&mut vec![(10, 20)], &mut vec![(10, 20)], &vec![]),
        vec![(10, 20), (10, 20)]
    );
    assert_eq!(
        remove_inbreeding(&mut vec![(10, 20)], &mut vec![(10, 20)], &vec![(30, 40)]),
        vec![(10, 20), (10, 20)]
    );
    assert_eq!(
        remove_inbreeding(&mut vec![(10, 20), (20, 30)], &mut vec![(10, 20)], &vec![(10, 20)]),
        vec![(10, 20), (20, 30)]
    );
    assert_eq!(
        remove_inbreeding(&mut vec![(10, 20)], &mut vec![(10, 20), (20, 30)], &vec![(10, 20)]),
        vec![(10, 20), (20, 30)]
    );
}

#[test]
fn test_single_same_segment() {
    let a = Diploid { starts: vec![0], end: 10, founder: vec![1] };
    let shared = common_homolog_segments(&a, &a);
    assert_eq!(shared, [(0, 10)]);
}

#[test]
fn test_single_different_segment() {
    let a = Diploid { starts: vec![0], end: 10, founder: vec![0] };
    let b = Diploid { starts: vec![0], end: 10, founder: vec![1] };
    let shared = common_homolog_segments(&a, &b);
    assert_eq!(shared, []);
}

#[test]
fn test_multiple_same_segment() {
    let a = Diploid { starts: vec![0], end: 10, founder: vec![0] };
    let b = Diploid { starts: vec![0, 5], end: 10, founder: vec![0, 0] };
    let shared = common_homolog_segments(&a, &b);
    assert_eq!(shared, [(0, 10)]);
}

#[test]
fn test_two_same_segments() {
    let a = Diploid { starts: vec![0, 5], end: 10, founder: vec![1, 2] };
    let shared = common_homolog_segments(&a, &a);
    assert_eq!(shared, [(0, 10)]);
}

#[test]
fn test_two_segments_different_boundary() {
    let a = Diploid { starts: vec![0, 5], end: 10, founder: vec![1, 1] };
    let b = Diploid { starts: vec![0, 6], end: 10, founder: vec![1, 1] };
    let shared = common_homolog_segments(&a, &b);
    assert_eq!(shared, [(0, 10)]);
}

#[test]
fn test_single_element_vs_many_match_in_back() {
    let a = Diploid { starts: vec![0], end: 10, founder: vec![0] };
    let b = Diploid { starts: vec![0, 2, 4, 8], end: 10, founder: vec![1, 2, 3, 0] };
    let shared = common_homolog_segments(&a, &b);
    assert_eq!(shared, [(8, 10)]);
}

#[test]
fn test_single_element_vs_many_match_in_front() {
    let a = Diploid { starts: vec![0], end: 10, founder: vec![0] };
    let b = Diploid { starts: vec![0, 2, 4, 8], end: 10, founder: vec![0, 2, 3, 4] };
    let shared = common_homolog_segments(&a, &b);
    assert_eq!(shared, [(0, 2)]);
}

#[test]
fn test_two_elements_merge() {
    let seq = vec![(0, 5), (5, 10)];
    let con = consolidate_sequence(&seq);
    assert_eq!(con, [(0, 10)]);
}

#[test]
fn test_two_elements_disjoint() {
    let seq = vec![(0, 5), (6, 10)];
    let con = consolidate_sequence(&seq);
    assert_eq!(con, seq);
}

#[test]
fn test_first_two_merge() {
    let seq = vec![(0, 4), (4, 8), (9, 10)];
    let con = consolidate_sequence(&seq);
    assert_eq!(con, [(0, 8), (9, 10)]);
}

#[test]
fn test_last_two_merge() {
    let seq = vec![(0, 4), (5, 8), (8, 10)];
    let con = consolidate_sequence(&seq);
    assert_eq!(con, [(0, 4), (5, 10)]);
}

#[test]
fn test_middle_two_merge() {
    let seq = vec![(0, 3), (4, 6), (6, 8), (9, 10)];
    let con = consolidate_sequence(&seq);
    assert_eq!(con, [(0, 3), (4, 8), (9, 10)]);
}

#[test]
fn test_many_elements() {
    let seq = vec![(0, 2), (2, 4), (4, 8), (8, 10)];
    let con = consolidate_sequence(&seq);
    assert_eq!(con, [(0, 10)]);
}

#[test]
fn test_many_emements_single_point() {
    let seq = vec![
        (0, 1),
        (1, 2),
        (2, 3),
        (3, 4),
        (4, 5),
        (5, 6),
        (6, 7),
        (7, 8),
        (8, 9),
        (9, 10),
    ];
    let con = consolidate_sequence(&seq);
    assert_eq!(con, [(0, 10)]);
}

#[test]
fn test_consolidate_idempotent() {
    let seq = vec![(0, 2), (2, 4), (6, 8), (8, 10)];
    let once = consolidate_sequence(&seq);
    let twice = consolidate_sequence(&once);
    assert_eq!(once, vec![(0, 4), (6, 10)]);
    assert_eq!(twice, once);
}


use genetic_privacy::segments::compare;
use rand::rngs::StdRng;
use rand::{RngExt, SeedableRng};

fn vector_sequence(rng: &mut StdRng, length: usize) -> Vec<u8> {
    let mut res = Vec::with_capacity(length);
    for _ in 0..length {
        res.push(rng.random_range(0..2) as u8);
    }
    res
}

fn vector_sequence_to_diploid(sequence: &[u8]) -> Diploid {
    let end = sequence.len() as u32;
    let mut starts = Vec::new();
    let mut founder = Vec::new();
    let mut current = sequence[0] as u32;
    starts.push(0);
    founder.push(current);
    for (i, &val) in sequence.iter().enumerate() {
        if val as u32 != current {
            current = val as u32;
            starts.push(i as u32);
            founder.push(current);
        }
    }
    Diploid { starts, founder, end }
}

#[test]
fn test_compare_agrees_with_segment_walk() {
    let mut rng = StdRng::seed_from_u64(11);
    for _ in 0..200 {
        let a = vector_sequence(&mut rng, 500);
        let b = vector_sequence(&mut rng, 500);
        let diploid_a = vector_sequence_to_diploid(&a);
        let diploid_b = vector_sequence_to_diploid(&b);
        let vec_equal = compare(&a, &b);
        let common_segments = common_homolog_segments(&diploid_a, &diploid_b);
        assert_eq!(vec_equal, common_segments);
    }
}
