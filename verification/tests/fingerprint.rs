use kmer_vec::error::KmerError;
use kmer_vec::fingerprint::build;
use kmer_vec::fingerprint::KmerVec;

fn chars(s: &str) -> Vec<char> {
    s.chars().collect()
}

fn similarity(a: &KmerVec, b: &KmerVec) -> f64 {
    let d = a.dot(b).unwrap();
    let na = (a.norm_sq() as f64).sqrt();
    let nb = (b.norm_sq() as f64).sqrt();
    d as f64 / (na * nb)
}

fn similarity_dist(a: &KmerVec, b: &KmerVec) -> f64 {
    1.0 - similarity(a, b)
}

#[test]
fn main() {
    let kmer0 = build(&chars("ACTG"), 1).unwrap();
    let kmer2 = build(&chars("AGTGTGCATCG"), 1).unwrap();
    let kmer3 = build(&chars("AAAAAAAAAAA"), 1).unwrap();
    println!("{:?}", kmer_vec::encoding::encode(&chars("A")));
    println!("{:?}", kmer0.dot(&kmer3));
    println!("{:?}", kmer0.dot(&kmer0));
    println!("{:?}", kmer2.dot(&kmer2));
}

#[test]
fn build_actg_k1() {
    // four windows "A","C","T","G", each counted once, magnitude sqrt(4) = 2
    let fp = build(&chars("ACTG"), 1).unwrap();
    assert_eq!(fp.k(), 1);
    assert_eq!(fp.num_entries(), 4);
    let mut keys = Vec::new();
    for i in 0..4 {
        assert_eq!(fp.count_at(i), 1);
        keys.push(fp.key_at(i));
    }
    assert_eq!(keys, vec![0, 1, 2, 3]);
    assert_eq!(fp.norm_sq(), 4);
    let norm = (fp.norm_sq() as f64).sqrt();
    for i in 0..4 {
        let weight = fp.count_at(i) as f64 / norm;
        assert_eq!(weight, 0.5);
    }
    let again = build(&chars("ACTG"), 1).unwrap();
    assert_eq!(similarity(&fp, &again), 1.0);
}

#[test]
fn build_eleven_a_k1() {
    // eleven identical symbols: one nonzero coordinate of weight 1.0
    let fp = build(&chars("AAAAAAAAAAA"), 1).unwrap();
    assert_eq!(fp.num_entries(), 1);
    assert_eq!(fp.key_at(0), 0);
    assert_eq!(fp.count_at(0), 11);
    assert_eq!(fp.norm_sq(), 121);
    let weight = fp.count_at(0) as f64 / (fp.norm_sq() as f64).sqrt();
    assert_eq!(weight, 1.0);
    let actg = build(&chars("ACTG"), 1).unwrap();
    assert_eq!(similarity(&actg, &fp), 0.5);
}

#[test]
fn window_counts_k1() {
    // "AGTGTGCATCG": A twice, C twice, T three times, G four times
    let fp = build(&chars("AGTGTGCATCG"), 1).unwrap();
    assert_eq!(fp.num_entries(), 4);
    let pairs: Vec<(u64, u64)> = (0..fp.num_entries())
        .map(|i| (fp.key_at(i), fp.count_at(i)))
        .collect();
    assert_eq!(pairs, vec![(0, 2), (1, 2), (2, 3), (3, 4)]);
    assert_eq!(fp.norm_sq(), 4 + 4 + 9 + 16);
}

#[test]
fn window_counts_k2() {
    // windows "AC", "CT", "TG" encode to 4, 9, 14
    let fp = build(&chars("ACTG"), 2).unwrap();
    assert_eq!(fp.k(), 2);
    let pairs: Vec<(u64, u64)> = (0..fp.num_entries())
        .map(|i| (fp.key_at(i), fp.count_at(i)))
        .collect();
    assert_eq!(pairs, vec![(4, 1), (9, 1), (14, 1)]);
    assert_eq!(fp.norm_sq(), 3);
}

#[test]
fn self_similarity_is_one() {
    for (s, k) in [("ACTG", 1), ("AGTGTGCATCG", 3), ("GGCCTTAA", 2)] {
        let a = build(&chars(s), k).unwrap();
        let b = build(&chars(s), k).unwrap();
        assert!((similarity(&a, &b) - 1.0).abs() < 1e-6);
    }
}

#[test]
fn similarity_is_symmetric() {
    let a = build(&chars("AGTGTGCATCG"), 2).unwrap();
    let b = build(&chars("ACTGACTG"), 2).unwrap();
    assert_eq!(a.dot(&b).unwrap(), b.dot(&a).unwrap());
    assert_eq!(similarity(&a, &b), similarity(&b, &a));
}

#[test]
fn dist_is_one_minus_similarity() {
    let a = build(&chars("AGTGTGCATCG"), 2).unwrap();
    let b = build(&chars("ACTGACTG"), 2).unwrap();
    assert_eq!(similarity_dist(&a, &b), 1.0 - similarity(&a, &b));
}

#[test]
fn dist_of_identical_is_zero() {
    let a = build(&chars("AGTGTGCATCG"), 1).unwrap();
    let b = build(&chars("AGTGTGCATCG"), 1).unwrap();
    assert_eq!(similarity_dist(&a, &b), 0.0);
}

#[test]
fn norm_is_one() {
    for (s, k) in [("ACTG", 1), ("AAAAAAAAAAA", 1), ("AGTGTGCATCG", 3)] {
        let fp = build(&chars(s), k).unwrap();
        let norm = (fp.norm_sq() as f64).sqrt();
        let mut sq = 0.0f64;
        for i in 0..fp.num_entries() {
            let w = fp.count_at(i) as f64 / norm;
            sq += w * w;
        }
        assert!((sq - 1.0).abs() < 1e-6);
    }
}

#[test]
fn single_window_at_largest_k() {
    // sequence length equals k: exactly one window, weight 1.0
    let fp = build(&vec!['T'; 31], 31).unwrap();
    assert_eq!(fp.k(), 31);
    assert_eq!(fp.num_entries(), 1);
    let key: u64 = (0..31).map(|i| 2 * 4u64.pow(i)).sum();
    assert_eq!(fp.key_at(0), key);
    assert_eq!(fp.count_at(0), 1);
    assert_eq!(fp.norm_sq(), 1);
    let other = build(&vec!['T'; 31], 31).unwrap();
    assert_eq!(similarity(&fp, &other), 1.0);
}

#[test]
fn invalid_symbol_is_rejected() {
    let r = build(&chars("ACTX"), 1);
    assert_eq!(r.unwrap_err(), KmerError::InvalidSymbol { symbol: 'X' });
    let r = build(&chars("AxTG"), 2);
    assert_eq!(r.unwrap_err(), KmerError::InvalidSymbol { symbol: 'x' });
}

#[test]
fn empty_window_range_is_rejected() {
    let r = build(&chars("AC"), 3);
    assert_eq!(r.unwrap_err(), KmerError::EmptyWindowRange { required: 3, actual: 2 });
    let r = build(&chars(""), 1);
    assert_eq!(r.unwrap_err(), KmerError::EmptyWindowRange { required: 1, actual: 0 });
    let r = build(&chars("ACTG"), 0);
    assert_eq!(r.unwrap_err(), KmerError::EmptyWindowRange { required: 0, actual: 4 });
}

#[test]
fn dimension_mismatch_is_rejected() {
    let a = build(&chars("ACTG"), 1).unwrap();
    let b = build(&chars("ACTG"), 2).unwrap();
    assert_eq!(
        a.dot(&b).unwrap_err(),
        KmerError::DimensionMismatch { left_k: 1, right_k: 2 }
    );
}
