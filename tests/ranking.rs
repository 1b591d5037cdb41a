use rendevous_hash::rank::{derived_rank, sorted_bucket_list};

#[test]
fn derived_rank_keeps_low_bits_of_wrapped_product() {
    // 2^62 * 4 = 2^64 wraps to 0.
    assert_eq!(derived_rank(4611686018427387904, 4), 0);
    // (2^62 + 1) * 4 = 2^64 + 4 wraps to 4.
    assert_eq!(derived_rank(4611686018427387905, 4), 4);
    assert_eq!(derived_rank(i64::MAX, i64::MAX), 1);
    assert_eq!(derived_rank(3_000_000_000, 3), 410_065_408);
}

#[test]
fn derived_rank_masks_negative_products() {
    assert_eq!(derived_rank(-1, 1), 0xFFFF_FFFF);
    assert_eq!(derived_rank(100, -1), 4_294_967_196);
    assert_eq!(derived_rank(200, -1), 4_294_967_096);
    assert_eq!(derived_rank(0, i64::MIN), 0);
}

#[test]
fn empty_mapping_ranks_to_empty_list() {
    assert_eq!(sorted_bucket_list(&vec![], 1), Vec::<u64>::new());
    assert_eq!(sorted_bucket_list(&vec![], -5), Vec::<u64>::new());
}

#[test]
fn singleton_mapping_ranks_to_its_bucket() {
    assert_eq!(sorted_bucket_list(&vec![(42, 7)], 3), vec![42]);
    assert_eq!(sorted_bucket_list(&vec![(42, i64::MIN)], i64::MAX), vec![42]);
}

#[test]
fn positive_multiplier_keeps_score_order() {
    let scores = vec![(1, 100), (2, 200)];
    assert_eq!(sorted_bucket_list(&scores, 1), vec![1, 2]);
}

#[test]
fn negative_multiplier_orders_by_masked_value() {
    // -100 masks to 4294967196 and -200 to 4294967096: the second bucket leads.
    let scores = vec![(1, 100), (2, 200)];
    assert_eq!(sorted_bucket_list(&scores, -1), vec![2, 1]);
}

#[test]
fn wrapped_product_ranks_first() {
    let scores = vec![(10, 5), (11, 4611686018427387904)];
    assert_eq!(sorted_bucket_list(&scores, 4), vec![11, 10]);
}

#[test]
fn ranking_ignores_entry_order() {
    let a = vec![(3, 900), (1, -17), (2, 123_456_789), (4, 0)];
    let b = vec![(2, 123_456_789), (4, 0), (3, 900), (1, -17)];
    let ra = sorted_bucket_list(&a, 7);
    assert_eq!(ra, sorted_bucket_list(&b, 7));
    assert_eq!(ra, vec![4, 3, 2, 1]);
}

#[test]
fn ranking_is_deterministic() {
    let scores = vec![(5, 31), (6, -2), (7, 1 << 40), (8, 99)];
    assert_eq!(sorted_bucket_list(&scores, 13), sorted_bucket_list(&scores, 13));
}

#[test]
fn ranks_along_the_list_never_decrease() {
    let scores = vec![(1, 981_234), (2, -77), (3, 1 << 33), (4, 65_537), (5, -1)];
    let k: i64 = 1_000_003;
    let r = sorted_bucket_list(&scores, k);
    assert_eq!(r.len(), scores.len());
    let rank = |b: u64| {
        let raw = scores.iter().find(|e| e.0 == b).unwrap().1;
        derived_rank(raw, k)
    };
    for w in r.windows(2) {
        assert!(rank(w[0]) <= rank(w[1]));
    }
}

#[test]
fn equal_ranks_fall_back_to_bucket_order() {
    // 1 and 2^32 + 1 share their low 32 bits.
    let scores = vec![(9, 1), (3, 4_294_967_297), (6, 1)];
    assert_eq!(sorted_bucket_list(&scores, 1), vec![3, 6, 9]);
}

#[test]
fn larger_mapping_is_fully_sorted() {
    let k: i64 = -7_919;
    let scores: Vec<(u64, i64)> = (0..257u64)
        .map(|b| (b * 31 % 257, (b as i64) * 1_000_000_007 - 123_456))
        .collect();
    let r = sorted_bucket_list(&scores, k);
    let mut expected: Vec<(u32, u64)> = scores
        .iter()
        .map(|&(b, raw)| (derived_rank(raw, k), b))
        .collect();
    expected.sort();
    let expected: Vec<u64> = expected.into_iter().map(|e| e.1).collect();
    assert_eq!(r, expected);
}
