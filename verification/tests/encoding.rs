use kmer_vec::encoding::base2num;
use kmer_vec::encoding::encode;
use kmer_vec::error::KmerError;

fn chars(s: &str) -> Vec<char> {
    s.chars().collect()
}

#[test]
fn symbol_values() {
    assert_eq!(base2num('A').unwrap(), 0);
    assert_eq!(base2num('C').unwrap(), 1);
    assert_eq!(base2num('T').unwrap(), 2);
    assert_eq!(base2num('G').unwrap(), 3);
    assert_eq!(base2num('U').unwrap_err(), KmerError::InvalidSymbol { symbol: 'U' });
}

#[test]
fn encode_single_symbols() {
    assert_eq!(encode(&chars("A")).unwrap(), 0);
    assert_eq!(encode(&chars("C")).unwrap(), 1);
    assert_eq!(encode(&chars("T")).unwrap(), 2);
    assert_eq!(encode(&chars("G")).unwrap(), 3);
}

#[test]
fn encode_first_symbol_is_least_significant() {
    assert_eq!(encode(&chars("AC")).unwrap(), 4);
    assert_eq!(encode(&chars("CA")).unwrap(), 1);
    assert_eq!(encode(&chars("GG")).unwrap(), 15);
    assert_eq!(encode(&chars("TAA")).unwrap(), 2);
    assert_eq!(encode(&chars("AAT")).unwrap(), 32);
}

#[test]
fn encode_rejects_first_invalid_character() {
    assert_eq!(encode(&chars("AXC")).unwrap_err(), KmerError::InvalidSymbol { symbol: 'X' });
    assert_eq!(encode(&chars("NX")).unwrap_err(), KmerError::InvalidSymbol { symbol: 'N' });
}

#[test]
fn encode_largest_window() {
    // 31 is the largest supported window length; all-G is the largest key
    let window = vec!['G'; 31];
    assert_eq!(encode(&window).unwrap(), 4u64.pow(31) - 1);
    let window = vec!['A'; 31];
    assert_eq!(encode(&window).unwrap(), 0);
}

#[test]
fn encoding_is_a_bijection_for_k2() {
    // the 16 windows of length 2 hit each key in [0, 16) exactly once
    let alphabet = ['A', 'C', 'T', 'G'];
    let mut seen = [false; 16];
    for a in alphabet {
        for b in alphabet {
            let key = encode(&vec![a, b]).unwrap();
            assert!(key < 16);
            assert!(!seen[key as usize]);
            seen[key as usize] = true;
        }
    }
    assert!(seen.iter().all(|s| *s));
}
