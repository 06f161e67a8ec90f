use npb_cg::randdp::{randlc, AMULT, TRAN0};
use npb_cg::rowgen::{find_col, icnvrt, sprnvc, vecset, HALF};

fn seed_after_first_draw() -> u64 {
    let mut x = TRAN0;
    randlc(&mut x, AMULT);
    x
}

#[test]
fn icnvrt_scales_and_truncates() {
    assert_eq!(icnvrt(61155031930969, 2048), 1779);
    assert_eq!(icnvrt(55279057169489, 2048), 1608);
    assert_eq!(icnvrt(0, 2048), 0);
    assert_eq!(icnvrt((1u64 << 46) - 1, 2048), 2047);
    assert_eq!(icnvrt(1u64 << 45, 1), 0);
    assert_eq!(icnvrt(1u64 << 45, 2), 1);
    assert_eq!(icnvrt(12345, 0), 0);
}

#[test]
fn icnvrt_takes_any_multiplier() {
    assert_eq!(icnvrt((1u64 << 46) - 1, u64::MAX), u64::MAX - (1u64 << 18));
    assert_eq!(icnvrt(1u64 << 45, 7), 3);
}

#[test]
fn find_col_returns_the_first_match() {
    let iv: Vec<i32> = vec![4, 9, 4, 2];
    assert_eq!(find_col(&iv, 4, 4), Some(0));
    assert_eq!(find_col(&iv, 4, 2), Some(3));
    assert_eq!(find_col(&iv, 3, 2), None);
    assert_eq!(find_col(&iv, 0, 4), None);
    assert_eq!(find_col(&iv, 4, 7), None);
}

#[test]
fn sprnvc_first_row_of_the_sample_class() {
    let mut tran = seed_after_first_draw();
    let mut v: Vec<u64> = vec![0; 8];
    let mut iv: Vec<i32> = vec![0; 8];
    let found = sprnvc(1400, 7, 2048, &mut v, &mut iv, &mut tran, AMULT, u64::MAX);
    assert!(found);
    assert_eq!(iv, vec![1327, 37, 1033, 43, 887, 658, 495, 0]);
    assert_eq!(
        v,
        vec![
            61155031930969,
            55279057169489,
            28525870915841,
            21392809295537,
            62509488944481,
            15966800135961,
            62413593015569,
            0
        ]
    );
    // Ten pairs were drawn: three fell beyond the last column.
    assert_eq!(tran, 17007861745125);
}

#[test]
fn sprnvc_drops_repeats_and_columns_out_of_range() {
    let mut tran = seed_after_first_draw();
    let mut v: Vec<u64> = vec![9; 3];
    let mut iv: Vec<i32> = vec![9; 3];
    let found = sprnvc(5, 3, 8, &mut v, &mut iv, &mut tran, AMULT, u64::MAX);
    assert!(found);
    assert_eq!(iv, vec![1, 5, 4]);
    assert_eq!(v, vec![55279057169489, 28525870915841, 62509488944481]);
    assert_eq!(tran, 30472392778869);
}

#[test]
fn sprnvc_stops_at_the_limit() {
    let mut tran = seed_after_first_draw();
    let mut v: Vec<u64> = vec![9; 3];
    let mut iv: Vec<i32> = vec![9; 3];
    let found = sprnvc(5, 3, 8, &mut v, &mut iv, &mut tran, AMULT, 2);
    assert!(!found);
    assert_eq!(iv, vec![1, 9, 9]);
    assert_eq!(v, vec![55279057169489, 9, 9]);
    assert_eq!(tran, 1250169187877);
}

#[test]
fn sprnvc_of_no_columns_draws_nothing() {
    let mut tran = TRAN0;
    let mut v: Vec<u64> = vec![];
    let mut iv: Vec<i32> = vec![];
    assert!(sprnvc(10, 0, 16, &mut v, &mut iv, &mut tran, AMULT, 5));
    assert_eq!(tran, TRAN0);
}

#[test]
fn sprnvc_with_no_pairs_allowed_finds_nothing() {
    let mut tran = TRAN0;
    let mut v: Vec<u64> = vec![3; 2];
    let mut iv: Vec<i32> = vec![3; 2];
    assert!(!sprnvc(10, 2, 16, &mut v, &mut iv, &mut tran, AMULT, 0));
    assert_eq!(tran, TRAN0);
    assert_eq!(iv, vec![3, 3]);
}

#[test]
fn sprnvc_cannot_fill_a_row_wider_than_the_matrix() {
    let mut tran = TRAN0;
    let mut v: Vec<u64> = vec![0; 3];
    let mut iv: Vec<i32> = vec![0; 3];
    assert!(!sprnvc(2, 3, 2, &mut v, &mut iv, &mut tran, AMULT, 500));
    let mut kept: Vec<i32> = iv[..2].to_vec();
    kept.sort();
    assert_eq!(kept, vec![1, 2]);
}

#[test]
fn sprnvc_single_column_matrix() {
    let mut tran = seed_after_first_draw();
    let mut v: Vec<u64> = vec![0; 1];
    let mut iv: Vec<i32> = vec![0; 1];
    assert!(sprnvc(1, 1, 1, &mut v, &mut iv, &mut tran, AMULT, 10));
    assert_eq!(iv, vec![1]);
    assert_eq!(v, vec![61155031930969]);
    assert_eq!(tran, 45573031421645);
}

#[test]
fn sprnvc_columns_are_distinct_and_in_range() {
    let mut tran = TRAN0;
    for _ in 0..200 {
        let mut v: Vec<u64> = vec![0; 13];
        let mut iv: Vec<i32> = vec![0; 13];
        assert!(sprnvc(100, 13, 128, &mut v, &mut iv, &mut tran, AMULT, u64::MAX));
        for k in 0..13 {
            assert!(1 <= iv[k] && iv[k] <= 100);
            for l in 0..k {
                assert_ne!(iv[k], iv[l]);
            }
        }
    }
}

#[test]
fn vecset_overwrites_a_column_that_is_present() {
    let mut v: Vec<u64> = vec![10, 20, 30, 0];
    let mut iv: Vec<i32> = vec![5, 7, 9, 0];
    let mut nzv: usize = 3;
    vecset(&mut v, &mut iv, &mut nzv, 7, HALF);
    assert_eq!(v, vec![10, HALF, 30, 0]);
    assert_eq!(iv, vec![5, 7, 9, 0]);
    assert_eq!(nzv, 3);
}

#[test]
fn vecset_appends_a_column_that_is_absent() {
    let mut v: Vec<u64> = vec![10, 20, 30, 0];
    let mut iv: Vec<i32> = vec![5, 7, 9, 0];
    let mut nzv: usize = 3;
    vecset(&mut v, &mut iv, &mut nzv, 8, HALF);
    assert_eq!(v, vec![10, 20, 30, HALF]);
    assert_eq!(iv, vec![5, 7, 9, 8]);
    assert_eq!(nzv, 4);
}

#[test]
fn vecset_sets_only_the_first_of_equal_columns() {
    let mut v: Vec<u64> = vec![1, 2, 3];
    let mut iv: Vec<i32> = vec![4, 4, 4];
    let mut nzv: usize = 3;
    vecset(&mut v, &mut iv, &mut nzv, 4, 99);
    assert_eq!(v, vec![99, 2, 3]);
    assert_eq!(nzv, 3);
}

#[test]
fn vecset_ignores_entries_beyond_the_count() {
    let mut v: Vec<u64> = vec![1, 2, 3];
    let mut iv: Vec<i32> = vec![4, 5, 6];
    let mut nzv: usize = 1;
    vecset(&mut v, &mut iv, &mut nzv, 6, 99);
    assert_eq!(v, vec![1, 99, 3]);
    assert_eq!(iv, vec![4, 6, 6]);
    assert_eq!(nzv, 2);
}

#[test]
fn vecset_into_an_empty_row() {
    let mut v: Vec<u64> = vec![0];
    let mut iv: Vec<i32> = vec![0];
    let mut nzv: usize = 0;
    vecset(&mut v, &mut iv, &mut nzv, 1, HALF);
    assert_eq!((v, iv, nzv), (vec![HALF], vec![1], 1));
}
