use editdist::align::{edit_dist, traceback, AlignResult};

fn result(d: u32, cigar: &str) -> AlignResult {
    AlignResult { edit_dist: d, cigar: String::from(cigar) }
}

#[test]
fn equal_length() {
    let s1 = "ACGTA";
    let s2 = "GCGTA";
    let align_result = edit_dist(s1, s2).unwrap();
    assert_eq!(
        align_result,
        AlignResult {
            edit_dist: 1,
            cigar: String::from("5M")
        }
    );
}

#[test]
fn diff_length() {
    let s1 = "ACGTAAACAC";
    let s2 = "ACGTAACAC";
    let align_result = edit_dist(s1, s2).unwrap();
    assert_eq!(
        align_result,
        AlignResult {
            edit_dist: 1,
            cigar: String::from("6M1I3M")
        }
    );
}

#[test]
fn large_del() {
    let s1 = "ACGTAAAAACCCAGGGCACACGTGGGGCACACACA";
    let s2 = "ACGTCACACGTGGGGCACACACA";
    let align_result = edit_dist(s1, s2).unwrap();
    assert_eq!(
        align_result,
        AlignResult {
            edit_dist: 12,
            cigar: String::from("4M5I1M2I1M3I3M2I14M")
        }
    );
}

#[test]
fn large_ins() {
    let s1 = "ACGTCACACGTGGGGCACACACAGGGGTTGTGTG";
    let s2 = "ACGTCACACGTGGGGCACACACA";
    let align_result = edit_dist(s1, s2).unwrap();
    assert_eq!(
        align_result,
        AlignResult {
            edit_dist: 11,
            cigar: String::from("23M11I")
        }
    );
}

#[test]
fn ins_del_mismatch() {
    let s1 = "ACGTCACACGTGGGGCACACACAGGGGTTGTGTG";
    let s2 = "ATGTCACACGTGGGGCACACA";
    let align_result = edit_dist(s1, s2).unwrap();
    assert_eq!(
        align_result,
        AlignResult {
            edit_dist: 14,
            cigar: String::from("21M13I")
        }
    );
}

#[test]
fn both_empty() {
    assert_eq!(edit_dist("", "").unwrap(), result(0, ""));
}

#[test]
fn first_empty() {
    assert_eq!(edit_dist("", "ABC").unwrap(), result(3, "3I"));
}

#[test]
fn second_empty() {
    assert_eq!(edit_dist("ABC", "").unwrap(), result(3, "3D"));
}

#[test]
fn distance_is_symmetric() {
    let pairs = [
        ("ACGTA", "GCGTA"),
        ("ACGTAAACAC", "ACGTAACAC"),
        ("kitten", "sitting"),
        ("", "XYZ"),
    ];
    for (a, b) in pairs.iter() {
        assert_eq!(
            edit_dist(a, b).unwrap().edit_dist,
            edit_dist(b, a).unwrap().edit_dist
        );
    }
    assert_eq!(edit_dist("kitten", "sitting").unwrap().edit_dist, 3);
}

#[test]
fn identity_short() {
    assert_eq!(edit_dist("ACGT", "ACGT").unwrap(), result(0, "4M"));
}

#[test]
fn identity_two_digit_count() {
    assert_eq!(edit_dist("ACGTACGTACGT", "ACGTACGTACGT").unwrap(), result(0, "12M"));
}

#[test]
fn triangle_holds() {
    let a = "ACGTAAACAC";
    let b = "ACGTAACAC";
    let c = "GCGTA";
    let ab = edit_dist(a, b).unwrap().edit_dist;
    let bc = edit_dist(b, c).unwrap().edit_dist;
    let ac = edit_dist(a, c).unwrap().edit_dist;
    assert!(ac <= ab + bc);
    assert_eq!((ab, bc, ac), (1, 5, 6));
}

fn op_counts(cigar: &str) -> (u32, u32, u32) {
    let (mut m, mut i, mut d) = (0u32, 0u32, 0u32);
    let mut n = 0u32;
    for ch in cigar.chars() {
        match ch {
            'M' => { m += n; n = 0; }
            'I' => { i += n; n = 0; }
            'D' => { d += n; n = 0; }
            _ => { n = n * 10 + ch.to_digit(10).unwrap(); }
        }
    }
    (m, i, d)
}

#[test]
fn cigar_counts_add_up() {
    let pairs = [
        ("AB", "A"),
        ("kitten", "sitting"),
        ("ACGTCACACGTGGGGCACACACAGGGGTTGTGTG", "ATGTCACACGTGGGGCACACA"),
        ("", "ABC"),
        ("ABC", ""),
    ];
    for (a, b) in pairs.iter() {
        let (m, i, d) = op_counts(&edit_dist(a, b).unwrap().cigar);
        assert_eq!(2 * m + i + d, (a.len() + b.len()) as u32);
    }
    assert_eq!(edit_dist("AB", "A").unwrap(), result(1, "1M1I"));
    assert_eq!(edit_dist("kitten", "sitting").unwrap(), result(3, "6M1D"));
}

#[test]
fn single_substitution() {
    assert_eq!(edit_dist("A", "C").unwrap(), result(1, "1M"));
}

#[test]
fn traceback_of_single_cell() {
    assert_eq!(traceback(&vec![vec![0u32]]), "");
}

#[test]
fn traceback_prefers_diagonal() {
    let mat = vec![vec![0u32, 1], vec![1, 0]];
    assert_eq!(traceback(&mat), "1M");
}

#[test]
fn traceback_edges() {
    assert_eq!(traceback(&vec![vec![0u32, 1, 2]]), "2I");
    assert_eq!(traceback(&vec![vec![0u32], vec![1], vec![2]]), "2D");
}
