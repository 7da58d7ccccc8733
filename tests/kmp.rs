use editdist::kmp::{kmp, kmp_wrapper, return_failure_function_table};

#[test]
fn failure_function_table() {
    let needle = "AAAGAAA";
    assert_eq!(vec![0, 1, 2, 0, 1, 2, 3], return_failure_function_table(&needle));
}

#[test]
fn failure_function_table_kmp77() {
    let needle = "abcabcacab";
    assert_eq!(vec![0, 0, 0, 1, 2, 3, 4, 0, 1, 2], return_failure_function_table(&needle));
}

#[test]
fn failure_function_repetitive() {
    let needle = "AAAAAAA";
    assert_eq!(vec![0, 1, 2, 3, 4, 5, 6], return_failure_function_table(&needle));
}

#[test]
fn kmp_search_match() {
    assert_eq!(std::option::Option::Some(7), kmp_wrapper("AAAGAAA", "AGCATTCAAAGAAATTT"));
}

#[test]
fn kmp_search_match_start() {
    assert_eq!(std::option::Option::Some(0), kmp_wrapper("AGCATT", "AGCATTCAAAGAAATTT"));
}

#[test]
fn kmp_search_match_first_char() {
    assert_eq!(std::option::Option::Some(0), kmp_wrapper("A", "AGCATTCAAAGAAATTT"));
}

#[test]
fn kmp_search_match_first_occurence() {
    assert_eq!(std::option::Option::Some(7), kmp_wrapper("AAA", "AGCATTCAAAGAAATTT"));
}

#[test]
fn kmp_search_match_end() {
    assert_eq!(std::option::Option::Some(14), kmp_wrapper("TTT", "AGCATTCAAAGAAATTT"));
}

#[test]
fn kmp_search_match_full() {
    assert_eq!(
        std::option::Option::Some(0),
        kmp_wrapper("AGCATTCAAAGAAATTT", "AGCATTCAAAGAAATTT")
    );
}

#[test]
fn kmp_search_match_repetitive1() {
    assert_eq!(std::option::Option::Some(0), kmp_wrapper("AAAAA", "AAAAAAAAAAAAAAAAA"));
}

#[test]
fn kmp_search_match_repetitive2() {
    assert_eq!(std::option::Option::Some(5), kmp_wrapper("AAAAA", "CCCCCAAAAAAAAAAAAAAAAA"));
}

#[test]
fn kmp_search_match_repetitive3() {
    assert_eq!(std::option::Option::Some(1), kmp_wrapper("CACACACA", "ACACACACAAAAAAAAAAAAA"));
}

#[test]
fn kmp_search_match_single_chars() {
    assert_eq!(std::option::Option::Some(0), kmp_wrapper("C", "C"));
}

#[test]
fn kmp_search_match_edge_case() {
    assert_eq!(
        std::option::Option::Some(8),
        kmp_wrapper("AAAAAAAAAAA", "ACACACACAAAAAAAAAAAAA")
    );
}

#[test]
fn kmp_search_match_edge_case2() {
    assert_eq!(
        std::option::Option::Some(24),
        kmp_wrapper(
            "AAAAAAAAAAAAAAAAAAAAAAAAATCAAAAAAACAAAACACAAAACTC",
            "TGGCTCTAAAATGCTCTGTTCTCAAAAAAAAAAAAAAAAAAAAAAAAAATCAAAAAAACAAAACACAAAACTCTTTAGAGAATCACCCCCCCTTACATTCTTG"
        )
    );
}

#[test]
fn kmp_search_no_match() {
    assert_eq!(std::option::Option::None, kmp_wrapper("AAAGAAC", "AGCATTCAAAGAAATTT"));
}

#[test]
fn kmp_search_no_match_edge_case1() {
    assert_eq!(std::option::Option::None, kmp_wrapper("GAAATTTC", "AGCATTCAAAGAAATTT"));
}

#[test]
fn kmp_search_no_match_needle_longer() {
    assert_eq!(
        std::option::Option::None,
        kmp_wrapper("AGCATTCAAAGAAATTTCC", "AGCATTCAAAGAAATTT")
    );
}

#[test]
fn failure_table_of_empty_needle() {
    assert_eq!(return_failure_function_table(""), Vec::<usize>::new());
}

#[test]
fn failure_table_after_fallback() {
    // the border of "aabaaa" is found after falling back from length 2 to 1
    assert_eq!(vec![0, 1, 0, 1, 2, 2], return_failure_function_table("aabaaa"));
}

#[test]
fn empty_needle_matches_at_start() {
    assert_eq!(Some(0), kmp_wrapper("", "ABC"));
    assert_eq!(Some(0), kmp_wrapper("", ""));
}

#[test]
fn search_with_given_table() {
    let table = return_failure_function_table("aabaaa");
    assert_eq!(Some(3), kmp("aabaaa", "aabaabaaa", &table));
}

#[test]
fn empty_haystack_has_no_match() {
    assert_eq!(None, kmp_wrapper("A", ""));
}
