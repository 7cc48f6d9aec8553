use genetic_privacy::descendants::descendants_id;
use genetic_privacy::diploid::{founder_at_position, swap_at_locations, Diploid, Genome};
use genetic_privacy::fit::{group_samples, nonzero_values, sufficient_nonzero};
use genetic_privacy::fit::parse_sample_line;
use genetic_privacy::founders::founders_id;
use genetic_privacy::segments::merge_overlaps;
use genetic_privacy::stats::NodeStats;
use genetic_privacy::generator::{pick_chroms, RecombGenomeGenerator};
use genetic_privacy::kinship::KinshipKey;
use genetic_privacy::population::{
    get_sibling_group, import_population, ImportError, JsonNode, JsonPopulation, JsonRelated, Sex,
};
use genetic_privacy::serializer::{decode_header, decode_samples, header_bytes, SimulationSerializer};

fn plain_json_node(id: u32, generation: u32, father: Option<u32>, mother: Option<u32>) -> JsonNode {
    JsonNode {
        id,
        sex: if id % 2 == 0 { Sex::Female } else { Sex::Male },
        generation,
        father,
        mother,
        suspected_father: father,
        suspected_mother: mother,
        twin: None,
    }
}

fn family_json() -> JsonPopulation {
    // two founders with three children, one of whom has a further child
    JsonPopulation {
        nodes: vec![
            plain_json_node(0, 0, None, None),
            plain_json_node(1, 0, None, None),
            plain_json_node(2, 1, Some(1), Some(0)),
            plain_json_node(3, 1, Some(1), Some(0)),
            plain_json_node(4, 1, Some(1), Some(0)),
            plain_json_node(5, 2, None, Some(2)),
        ],
        related: vec![JsonRelated { labeled_node: 0, unlabeled_node: 5 }],
        labeled: vec![0],
    }
}

#[test]
fn test_import_family() {
    let imported = import_population(&family_json()).unwrap();
    let pop = &imported.node_generator.nodes;
    assert_eq!(pop.members.len(), 6);
    assert_eq!(pop.generations.len(), 3);
    assert_eq!(pop.members[0].children, vec![2, 3, 4]);
    assert_eq!(pop.members[1].children, vec![2, 3, 4]);
    assert_eq!(pop.members[2].children, vec![5]);
    assert_eq!(pop.members[5].mother, Some(2));
    assert_eq!(imported.labeled, vec![0]);
    assert_eq!(imported.related.len(), 1);
    assert_eq!(imported.related[0].labeled, 0);
    assert_eq!(imported.related[0].unlabeled, 5);
    assert_eq!(imported.node_generator.id, 6);
}

#[test]
fn test_import_rejects_duplicate_id() {
    let mut json = family_json();
    json.nodes[3].id = 2;
    assert!(matches!(import_population(&json), Err(ImportError::DuplicateOrOutOfRangeId)));
}

#[test]
fn test_import_rejects_out_of_range_id() {
    let mut json = family_json();
    json.nodes[3].id = 17;
    assert!(matches!(import_population(&json), Err(ImportError::DuplicateOrOutOfRangeId)));
}

#[test]
fn test_import_rejects_forward_parent() {
    let mut json = family_json();
    json.nodes[2].father = Some(4);
    json.nodes[2].mother = Some(3);
    assert!(matches!(import_population(&json), Err(ImportError::BadParentRef)));
}

#[test]
fn test_import_rejects_twin_out_of_range() {
    let mut json = family_json();
    json.nodes[2].twin = Some(40);
    assert!(matches!(import_population(&json), Err(ImportError::BadTwinRef)));
}

#[test]
fn test_import_rejects_labeled_out_of_range() {
    let mut json = family_json();
    json.labeled = vec![9];
    assert!(matches!(import_population(&json), Err(ImportError::BadLabeledRef)));
}

#[test]
fn test_import_rejects_related_out_of_range() {
    let mut json = family_json();
    json.related = vec![JsonRelated { labeled_node: 0, unlabeled_node: 9 }];
    assert!(matches!(import_population(&json), Err(ImportError::BadRelatedRef)));
}

#[test]
fn test_sibling_group_full() {
    let imported = import_population(&family_json()).unwrap();
    let pop = &imported.node_generator.nodes;
    assert_eq!(get_sibling_group(pop, 3), vec![2, 3, 4]);
}

#[test]
fn test_sibling_group_missing_parent() {
    let imported = import_population(&family_json()).unwrap();
    let pop = &imported.node_generator.nodes;
    assert_eq!(get_sibling_group(pop, 5), vec![5]);
    assert_eq!(get_sibling_group(pop, 0), vec![0]);
}

#[test]
fn test_descendants_id_walks_generations() {
    let imported = import_population(&family_json()).unwrap();
    let pop = &imported.node_generator.nodes;
    assert_eq!(descendants_id(pop, 0), vec![2, 3, 4, 5]);
    assert_eq!(descendants_id(pop, 2), vec![5]);
    assert_eq!(descendants_id(pop, 5), Vec::<u32>::new());
}

#[test]
fn test_founders_id_reaches_top() {
    let imported = import_population(&family_json()).unwrap();
    let pop = &imported.node_generator.nodes;
    assert_eq!(founders_id(pop, 0), vec![0]);
    assert_eq!(founders_id(pop, 2), vec![0, 1]);
    // node 5 has an incomplete parent pair, so it is its own founder
    assert_eq!(founders_id(pop, 5), vec![5]);
}

#[test]
fn test_kinship_key_orders_ids() {
    let key = KinshipKey::new(7, 3);
    assert_eq!(key.values(), (3, 7));
    assert_eq!(KinshipKey::new(3, 7), key);
}

fn small_generator() -> RecombGenomeGenerator {
    let lengths: Vec<u32> = vec![
        10, 10, 10, 10, 10, 10, 10, 10, 10, 10, 10, 10, 10, 10, 10, 10, 10, 10, 10, 10, 10, 10,
    ];
    RecombGenomeGenerator::new(&lengths)
}

#[test]
fn test_generator_mints_founder_genomes() {
    let mut generator = small_generator();
    assert_eq!(generator.total_length, 220);
    assert_eq!(generator.chrom_start_offset[0], 0);
    assert_eq!(generator.chrom_start_offset[1], 10);
    assert_eq!(generator.chrom_start_offset[21], 210);
    let first = generator.generate();
    let second = generator.generate();
    assert_eq!(first.mother.founder, vec![0; 22]);
    assert_eq!(first.father.founder, vec![1; 22]);
    assert_eq!(second.mother.founder, vec![2; 22]);
    assert_eq!(second.father.founder, vec![3; 22]);
    assert_eq!(first.mother.starts, generator.chrom_start_offset);
    assert_eq!(first.mother.end, 220);
    generator.reset();
    let again = generator.generate();
    assert_eq!(again.mother.founder, vec![0; 22]);
}

#[test]
fn test_pick_chroms_selects_strands() {
    let mut generator = small_generator();
    let genome = generator.generate();
    let mut picks = vec![false; 22];
    picks[0] = true;
    picks[21] = true;
    let gamete = pick_chroms(&genome, &picks, &generator.chrom_start_offset);
    // chromosome 0 spans [0, 10), chromosome 1 spans [10, 20)
    assert_eq!(founder_at_position(&gamete, 5), 0);
    assert_eq!(founder_at_position(&gamete, 15), 1);
    assert_eq!(founder_at_position(&gamete, 215), 0);
}

#[test]
fn test_swap_twice_restores_founders() {
    let mother = Diploid { starts: vec![0, 4], founder: vec![1, 5], end: 10 };
    let father = Diploid { starts: vec![0, 7], founder: vec![2, 6], end: 10 };
    let genome = Genome { mother, father };
    let locations = vec![2, 8];
    let once = swap_at_locations(&genome, &locations);
    let twice = swap_at_locations(&once, &locations);
    for p in 0..10u32 {
        assert_eq!(
            founder_at_position(&twice.mother, p),
            founder_at_position(&genome.mother, p)
        );
        assert_eq!(
            founder_at_position(&twice.father, p),
            founder_at_position(&genome.father, p)
        );
    }
}

#[test]
fn test_swap_with_no_locations_clones() {
    let mother = Diploid { starts: vec![0, 4], founder: vec![1, 5], end: 10 };
    let father = Diploid { starts: vec![0, 7], founder: vec![2, 6], end: 10 };
    let genome = Genome { mother, father };
    let res = swap_at_locations(&genome, &vec![]);
    assert_eq!(res.mother.starts, genome.mother.starts);
    assert_eq!(res.mother.founder, genome.mother.founder);
    assert_eq!(res.father.starts, genome.father.starts);
    assert_eq!(res.father.founder, genome.father.founder);
}

#[test]
fn test_insufficient_nonzero_samples() {
    // nine zero draws and one positive draw: fewer than five nonzero
    let data: Vec<u64> = vec![0, 0, 0, 0, 0, 0, 0, 0, 0, 37];
    assert!(!sufficient_nonzero(&data));
    assert_eq!(nonzero_values(&data), vec![37]);
    let enough: Vec<u64> = vec![1, 2, 3, 4, 5];
    assert!(sufficient_nonzero(&enough));
}

#[test]
fn test_group_samples_by_node() {
    let entries: Vec<(u32, u64)> = vec![(3, 10), (1, 5), (3, 20), (1, 0), (2, 7)];
    let groups = group_samples(&entries);
    assert_eq!(groups.len(), 3);
    assert_eq!(groups[0].0, 3);
    assert_eq!(groups[0].1, vec![10, 20]);
    assert_eq!(groups[1].0, 1);
    assert_eq!(groups[1].1, vec![5, 0]);
    assert_eq!(groups[2].0, 2);
    assert_eq!(groups[2].1, vec![7]);
}

#[test]
fn test_serializer_round_trip() {
    let mut serializer = SimulationSerializer::new();
    serializer.insert(2, 1, f64::to_bits(1.5));
    serializer.insert(1, 9, f64::to_bits(0.25));
    serializer.insert(1, 4, f64::to_bits(3.0));
    let bytes = serializer.flush_bytes();
    assert_eq!(bytes.len(), 24);
    assert!(serializer.buffers.is_empty());
    let decoded = decode_samples(&bytes).unwrap();
    // canonical order is ascending by (anchor, unlabeled)
    assert_eq!(
        decoded,
        vec![f64::to_bits(3.0), f64::to_bits(0.25), f64::to_bits(1.5)]
    );
    assert_eq!(f64::from_bits(decoded[0]), 3.0);
}

#[test]
fn test_header_layout() {
    let pairs: Vec<(u32, u32)> = vec![(2, 1), (1, 3)];
    let bytes = header_bytes(&pairs);
    // eight bytes of byte count, then the pairs sorted ascending
    assert_eq!(bytes.len(), 8 + 16);
    assert_eq!(&bytes[0..8], &[16, 0, 0, 0, 0, 0, 0, 0]);
    assert_eq!(&bytes[8..12], &[1, 0, 0, 0]);
    assert_eq!(&bytes[12..16], &[3, 0, 0, 0]);
    assert_eq!(&bytes[16..20], &[2, 0, 0, 0]);
    assert_eq!(&bytes[20..24], &[1, 0, 0, 0]);
}

#[test]
fn test_header_round_trip() {
    let pairs: Vec<(u32, u32)> = vec![(7, 2), (1, 9), (4, 4)];
    let bytes = header_bytes(&pairs);
    let decoded = decode_header(&bytes).unwrap();
    assert_eq!(decoded, vec![(1, 9), (4, 4), (7, 2)]);
    assert!(decode_header(&bytes[0..7].to_vec()).is_none());
}

#[test]
fn test_decode_samples_rejects_ragged_block() {
    let bytes: Vec<u8> = vec![1, 2, 3];
    assert!(decode_samples(&bytes).is_none());
}

#[test]
fn test_parse_sample_line() {
    assert_eq!(parse_sample_line(b"17 123456"), Some((17, 123456)));
    assert_eq!(parse_sample_line(b"  17\t123456  "), Some((17, 123456)));
    assert_eq!(parse_sample_line(b"17"), None);
    assert_eq!(parse_sample_line(b"17 12 9"), None);
    assert_eq!(parse_sample_line(b"abc 12"), None);
    assert_eq!(parse_sample_line(b"4294967295 18446744073709551615"), Some((u32::MAX, u64::MAX)));
    assert_eq!(parse_sample_line(b"4294967296 1"), None);
    assert_eq!(parse_sample_line(b"1 18446744073709551616"), None);
    assert_eq!(parse_sample_line(b""), None);
}

#[test]
fn test_node_stats_accumulates_runs() {
    let mother = Diploid { starts: vec![0, 4], founder: vec![1, 2], end: 10 };
    let father = Diploid { starts: vec![0, 7], founder: vec![2, 3], end: 10 };
    let genome = Genome { mother, father };
    let mut stats = NodeStats::new();
    stats.update(9, &genome);
    stats.update(9, &genome);
    assert_eq!(stats.node_map.len(), 1);
    assert_eq!(stats.node_map[0].0, 9);
    let founders = &stats.node_map[0].1.founder_stats;
    assert_eq!(founders.len(), 3);
    // founder 1: one run of length 4 on the mother strand
    assert_eq!(founders[0].0, 1);
    assert_eq!(founders[0].1.len(), 2);
    assert_eq!(founders[0].1[0].count, 1);
    assert_eq!(founders[0].1[0].total_length, 4);
    // founder 2: mother run [4, 10) and father run [0, 7)
    assert_eq!(founders[1].0, 2);
    assert_eq!(founders[1].1[1].count, 2);
    assert_eq!(founders[1].1[1].total_length, 13);
    // founder 3: father run [7, 10)
    assert_eq!(founders[2].0, 3);
    assert_eq!(founders[2].1[0].count, 1);
    assert_eq!(founders[2].1[0].total_length, 3);
}

#[test]
fn test_merge_overlaps_accepts_unsorted_input() {
    assert_eq!(
        merge_overlaps(vec![(10, 15), (1, 2)], vec![(14, 20), (0, 1)]),
        vec![(0, 2), (10, 20)]
    );
    assert_eq!(merge_overlaps(vec![(5, 8), (1, 9)], vec![]), vec![(1, 9)]);
}
