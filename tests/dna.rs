use genome::{inherit, BuildError, DecodeError, Gene, DNA};
use rand::Rng;
use rand_distr::StandardNormal;

fn samples(n: usize) -> Vec<u32> {
    let mut rng = rand::thread_rng();
    (0..n)
        .map(|_| {
            let v: f32 = rng.sample(StandardNormal);
            v.to_bits()
        })
        .collect()
}

fn new_dna(pool_size: u16, gene_size: u16) -> DNA {
    let n = pool_size as usize * (gene_size as usize + 1);
    DNA::new(pool_size, gene_size, &samples(n)).unwrap()
}

fn merge(left: DNA, right: DNA, mutate: bool) -> Option<DNA> {
    let fresh = samples(left.pool_size as usize);
    DNA::merge(left, right, mutate, &fresh)
}

fn ratio(matches: u16, pool_size: u16) -> f64 {
    matches as f64 / pool_size as f64
}

fn decode(text: String) -> DNA {
    DNA::decode(&text).unwrap()
}

#[test]
fn dna_can_be_converted_and_back() {
    let dna = new_dna(4, 2);
    let dna2 = decode(dna.to_string());
    assert_eq!(dna.gene_size, dna2.gene_size);
    assert_eq!(dna.pool_size, dna2.pool_size);
    assert_eq!(dna.genes.len(), dna2.genes.len());
    assert_eq!(dna.to_string(), dna2.to_string());
}

#[test]
fn dna_can_be_merged() {
    let dna1 = new_dna(2, 2);
    let dna2 = new_dna(2, 2);
    match merge(dna1, dna2, false) {
        Some(_) => assert!(true),
        None => assert!(false),
    };
}

#[test]
fn dna_cannot_be_merged() {
    let dna1 = new_dna(2, 2);
    let dna2 = new_dna(3, 2);
    match merge(dna1, dna2, false) {
        Some(_) => assert!(false),
        None => assert!(true),
    };
}

#[test]
fn dna_check_merged_gene_ratio() {
    let dna1 = new_dna(512, 4);
    let dna2 = new_dna(512, 4);
    let dna1str = dna1.to_string();
    let dna2str = dna2.to_string();
    let child = merge(dna1, dna2, false).unwrap();
    let child_str = child.to_string();
    let parent1_ratio = ratio(DNA::compare(decode(child_str.clone()), decode(dna1str)), 512);
    let parent2_ratio = ratio(DNA::compare(decode(child_str), decode(dna2str)), 512);
    assert!(parent1_ratio != 0 as f64);
    assert!(parent2_ratio != 0 as f64);
    assert!(parent1_ratio + parent2_ratio == 1 as f64);
}

#[test]
fn mod_can_be_converted_and_back() {
    let dna = new_dna(4, 2);
    let dna2 = decode(dna.to_string());
    assert_eq!(dna.gene_size, dna2.gene_size);
    assert_eq!(dna.pool_size, dna2.pool_size);
    assert_eq!(dna.genes.len(), dna2.genes.len());
    assert_eq!(dna.to_string(), dna2.to_string());
}

#[test]
fn mod_can_be_merged() {
    let dna1 = new_dna(2, 2);
    let dna2 = new_dna(2, 2);
    match merge(dna1, dna2, false) {
        Some(_) => assert!(true),
        None => assert!(false),
    };
}

#[test]
fn mod_cannot_be_merged() {
    let dna1 = new_dna(2, 2);
    let dna2 = new_dna(3, 2);
    match merge(dna1, dna2, false) {
        Some(_) => assert!(false),
        None => assert!(true),
    };
}

#[test]
fn mod_check_merged_gene_ratio() {
    let dna1 = new_dna(512, 4);
    let dna2 = new_dna(512, 4);
    let dna1str = dna1.to_string();
    let dna2str = dna2.to_string();
    let child = merge(dna1, dna2, false).unwrap();
    let child_str = child.to_string();
    let parent1_ratio = ratio(DNA::compare(decode(child_str.clone()), decode(dna1str)), 512);
    let parent2_ratio = ratio(DNA::compare(decode(child_str), decode(dna2str)), 512);
    assert!(parent1_ratio != 0 as f64);
    assert!(parent2_ratio != 0 as f64);
    assert!(parent1_ratio + parent2_ratio == 1 as f64);
}

#[test]
fn dna_new_fills_markers_in_order() {
    let dna = DNA::new(2, 1, &[1, 2, 3, 4]).unwrap();
    assert_eq!(dna.genes.len(), 2);
    assert_eq!(dna.genes[0].get_influence(), 1);
    assert_eq!(dna.genes[1].get_marker(0), Some(4));
    assert_eq!(dna.to_latent_vec(), vec![1, 2, 3, 4]);
}

#[test]
fn dna_new_without_trait_markers_fails() {
    assert_eq!(DNA::new(2, 0, &[1, 2]).err(), Some(BuildError::NoMarkers));
}

#[test]
fn dna_text_layout() {
    let dna = DNA::new(1, 1, &[0x3f80_0000, 0xdead_beef]).unwrap();
    assert_eq!(dna.to_string(), "000100013f800000deadbeef");
}

#[test]
fn dna_scenario_pool_four_gene_two() {
    let dna = new_dna(4, 2);
    let text = dna.to_string();
    assert_eq!(text.len(), 104);
    let back = decode(text);
    assert_eq!(back.pool_size, 4);
    assert_eq!(back.gene_size, 2);
    assert_eq!(back.genes.len(), 4);
    for g in back.genes.iter() {
        assert_eq!(g.markers.len(), 3);
    }
}

#[test]
fn dna_round_trip_keeps_special_patterns() {
    let bits = vec![
        0x7fc0_0000, // NaN
        0x7f80_0000, // infinity
        0xff80_0000, // negative infinity
        0x8000_0000, // negative zero
        0x0000_0001, // subnormal
        0xbf80_0000, // -1.0
    ];
    let dna = DNA::new(2, 2, &bits).unwrap();
    let back = decode(dna.to_string());
    assert_eq!(back.to_latent_vec(), bits);
}

#[test]
fn dna_compare_with_itself_matches_everywhere() {
    let dna = new_dna(8, 3);
    let copy = decode(dna.to_string());
    assert_eq!(DNA::compare(dna, copy), 8);
}

#[test]
fn dna_compare_different_pool_sizes_is_zero() {
    let a = new_dna(2, 2);
    let b = new_dna(3, 2);
    assert_eq!(DNA::compare(a, b), 0);
}

#[test]
fn dna_compare_counts_matching_positions() {
    let a = DNA::new(3, 1, &[1, 2, 3, 4, 5, 6]).unwrap();
    let b = DNA::new(3, 1, &[1, 2, 9, 9, 5, 6]).unwrap();
    assert_eq!(DNA::compare(a, b), 2);
}

#[test]
fn dna_merge_gene_size_mismatch_is_none() {
    let a = new_dna(2, 2);
    let b = new_dna(2, 3);
    assert!(merge(a, b, false).is_none());
}

#[test]
fn dna_merge_keeps_shape() {
    let a = new_dna(5, 3);
    let b = new_dna(5, 3);
    let child = merge(a, b, true).unwrap();
    assert_eq!(child.pool_size, 5);
    assert_eq!(child.gene_size, 3);
    assert_eq!(child.genes.len(), 5);
    for g in child.genes.iter() {
        assert_eq!(g.num_markers, 3);
        assert_eq!(g.markers.len(), 4);
    }
}

#[test]
fn dna_merge_without_mutation_takes_whole_genes() {
    let a = DNA::new(16, 1, &(0..32).collect::<Vec<u32>>()).unwrap();
    let b = DNA::new(16, 1, &(100..132).collect::<Vec<u32>>()).unwrap();
    let a_text: Vec<String> = a.genes.iter().map(|g| g.to_string()).collect();
    let b_text: Vec<String> = b.genes.iter().map(|g| g.to_string()).collect();
    let child = merge(a, b, false).unwrap();
    for (i, g) in child.genes.iter().enumerate() {
        let t = g.to_string();
        assert!(t == a_text[i] || t == b_text[i]);
    }
}

#[test]
fn inherit_follows_the_draw() {
    let left = Gene::new(1, &[1, 2]).unwrap();
    let right = Gene::new(1, &[3, 4]).unwrap();
    let a = inherit(&left, &right, 8_388_608);
    assert_eq!(a.to_string(), left.to_string());
    let b = inherit(&left, &right, 8_388_607);
    assert_eq!(b.to_string(), right.to_string());
    let c = inherit(&left, &right, 0);
    assert_eq!(c.get_markers(), vec![4]);
}

#[test]
fn dna_decode_errors() {
    assert_eq!(DNA::decode("0001").err(), Some(DecodeError::TruncatedHeader));
    assert_eq!(DNA::decode("zz010001").err(), Some(DecodeError::BadHexDigit));
    assert_eq!(DNA::decode("00010000").err(), Some(DecodeError::NoMarkers));
    assert_eq!(
        DNA::decode("000200013f800000deadbeef").err(),
        Some(DecodeError::UnexpectedLength)
    );
    assert_eq!(
        DNA::decode("000100013f80000gdeadbeef").err(),
        Some(DecodeError::BadHexDigit)
    );
    assert!(DNA::decode("00000001").is_ok());
}

#[test]
fn dna_latent_vec_is_gene_major() {
    let dna = DNA::new(2, 2, &[10, 11, 12, 20, 21, 22]).unwrap();
    let v = dna.to_latent_vec();
    assert_eq!(v.len(), 6);
    assert_eq!(v, vec![10, 11, 12, 20, 21, 22]);
}

#[test]
fn merge_drawn_places_genes_by_draw() {
    let a = DNA::new(3, 1, &[1, 2, 3, 4, 5, 6]).unwrap();
    let b = DNA::new(3, 1, &[11, 12, 13, 14, 15, 16]).unwrap();
    let crossover = [8_388_608, 8_388_607, 16_777_215];
    let child = DNA::merge_drawn(a, b, false, &crossover, &[], &[]).unwrap();
    assert_eq!(child.to_latent_vec(), vec![1, 2, 13, 14, 5, 6]);
}

#[test]
fn merge_drawn_mutates_only_at_or_above_cutoff() {
    let a = DNA::new(2, 1, &[1, 2, 3, 4]).unwrap();
    let b = DNA::new(2, 1, &[11, 12, 13, 14]).unwrap();
    // below the cutoff nothing changes, even with mutation on
    let chance = [15_099_493, 0];
    let child = DNA::merge_drawn(a, b, true, &[0, 16_777_215], &chance, &[7, 7]).unwrap();
    assert_eq!(child.to_latent_vec(), vec![11, 12, 3, 4]);
}

#[test]
fn merge_drawn_at_cutoff_mutates_once() {
    let base: Vec<u32> = (1..=20).collect();
    let mut changed = 0;
    for _ in 0..200 {
        let a = DNA::new(1, 19, &base).unwrap();
        let b = DNA::new(1, 19, &base).unwrap();
        let child =
            DNA::merge_drawn(a, b, true, &[16_777_215], &[15_099_494], &[999]).unwrap();
        let v = child.to_latent_vec();
        assert_eq!(v.len(), 20);
        if v != base {
            changed += 1;
        }
    }
    assert!(changed > 100);
}

#[test]
fn merge_drawn_shape_mismatch_is_none() {
    let a = new_dna(2, 2);
    let b = new_dna(2, 3);
    assert!(DNA::merge_drawn(a, b, false, &[0, 0], &[], &[]).is_none());
}

#[test]
fn dna_well_formedness() {
    let mut d = DNA::new(2, 1, &[1, 2, 3, 4]).unwrap();
    assert!(d.is_well_formed());
    d.pool_size = 3;
    assert!(!d.is_well_formed());
    d.pool_size = 2;
    d.genes[1].num_markers = 2;
    assert!(!d.is_well_formed());
    assert!(!d.genes[1].is_well_formed());
}
