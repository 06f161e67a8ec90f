use npb_cg::makea::{makea, pow2_ceiling, stage_rows, MakeaError};
use npb_cg::randdp::{randlc, AMULT, TRAN0};
use npb_cg::rowgen::HALF;

fn seed_after_first_draw() -> u64 {
    let mut x = TRAN0;
    randlc(&mut x, AMULT);
    x
}

#[test]
fn pow2_ceiling_is_the_least_power_of_two_not_below() {
    assert_eq!(pow2_ceiling(0), 1);
    assert_eq!(pow2_ceiling(1), 1);
    assert_eq!(pow2_ceiling(2), 2);
    assert_eq!(pow2_ceiling(3), 4);
    assert_eq!(pow2_ceiling(4), 4);
    assert_eq!(pow2_ceiling(5), 8);
    assert_eq!(pow2_ceiling(1400), 2048);
    assert_eq!(pow2_ceiling(2048), 2048);
    assert_eq!(pow2_ceiling(2049), 4096);
    assert_eq!(pow2_ceiling(75000), 131072);
    assert_eq!(pow2_ceiling(i32::MAX as usize), 1u64 << 31);
}

#[test]
fn stage_rows_small_example() {
    let mut tran = seed_after_first_draw();
    let st = stage_rows(6, 2, &mut tran, AMULT, u64::MAX).unwrap();
    assert!(st.check());
    assert_eq!(st.n, 6);
    assert_eq!(st.stride, 3);
    assert_eq!(st.arow, vec![2, 3, 2, 3, 3, 3]);
    let expect_cols: [&[i32]; 6] = [&[5, 0], &[4, 0, 1], &[3, 2], &[1, 0, 3], &[5, 3, 4], &[2, 3, 5]];
    let expect_vals: [&[u64]; 6] = [
        &[61155031930969, HALF],
        &[28525870915841, 21392809295537, HALF],
        &[62509488944481, HALF],
        &[62413593015569, 31972886383945, HALF],
        &[7644095475137, 17481300542585, HALF],
        &[5857521717105, 30249524878505, HALF],
    ];
    for i in 0..6 {
        for k in 0..st.arow[i] {
            assert_eq!(st.acol[i * 3 + k], expect_cols[i][k]);
            assert_eq!(st.aelt[i * 3 + k], expect_vals[i][k]);
        }
    }
    assert_eq!(tran, 30882798950749);
}

#[test]
fn stage_rows_forces_the_diagonal_to_one_half() {
    let mut tran = seed_after_first_draw();
    let st = stage_rows(50, 5, &mut tran, AMULT, u64::MAX).unwrap();
    for i in 0..50 {
        let w = st.arow[i];
        assert!(w == 5 || w == 6);
        let hits: Vec<usize> = (0..w).filter(|k| st.acol[i * 6 + k] == i as i32).collect();
        assert_eq!(hits.len(), 1);
        assert_eq!(st.aelt[i * 6 + hits[0]], HALF);
        if w == 6 {
            assert_eq!(hits[0], 5);
        }
    }
}

#[test]
fn stage_rows_reports_the_first_row_that_falls_short() {
    let mut tran = seed_after_first_draw();
    // Row 0 needs two pairs, row 1 needs three: two pairs a row are too few.
    assert_eq!(
        stage_rows(6, 2, &mut tran, AMULT, 2).err(),
        Some(MakeaError::DrawsExhausted { row: 1 })
    );
}

#[test]
fn stage_rows_without_draws_only_sets_diagonals() {
    let mut tran = TRAN0;
    let st = stage_rows(3, 0, &mut tran, AMULT, 0).unwrap();
    assert_eq!(tran, TRAN0);
    assert_eq!(st.arow, vec![1, 1, 1]);
    assert_eq!(st.acol, vec![0, 1, 2]);
    assert_eq!(st.aelt, vec![HALF, HALF, HALF]);
}

#[test]
fn makea_small_example() {
    let mut tran = seed_after_first_draw();
    let (st, m) = makea(6, 2, 44, &mut tran, AMULT, u64::MAX).unwrap();
    assert_eq!(st.arow, vec![2, 3, 2, 3, 3, 3]);
    assert_eq!(m.row_ptr, vec![0, 5, 9, 12, 18, 23, 28]);
    assert_eq!(
        m.col_index,
        vec![0, 1, 3, 4, 5, 0, 1, 3, 4, 2, 3, 5, 0, 1, 2, 3, 4, 5, 0, 1, 3, 4, 5, 0, 2, 3, 4, 5]
    );
    assert_eq!(tran, 30882798950749);
}

#[test]
fn makea_reports_exceeded_space() {
    let mut tran = seed_after_first_draw();
    assert_eq!(
        makea(6, 2, 43, &mut tran, AMULT, u64::MAX).err(),
        Some(MakeaError::SpaceExceeded { rows: 6, needed: 44, capacity: 43 })
    );
    assert_eq!(tran, 30882798950749);
}

#[test]
fn makea_reports_exhausted_draws() {
    let mut tran = seed_after_first_draw();
    assert_eq!(
        makea(6, 2, 1000, &mut tran, AMULT, 1).err(),
        Some(MakeaError::DrawsExhausted { row: 0 })
    );
}

#[test]
fn makea_single_cell() {
    let mut tran = seed_after_first_draw();
    let (st, m) = makea(1, 0, 1, &mut tran, AMULT, u64::MAX).unwrap();
    assert_eq!(st.arow, vec![1]);
    assert_eq!(st.acol, vec![0]);
    assert_eq!(st.aelt, vec![HALF]);
    assert_eq!(m.row_ptr, vec![0, 1]);
    assert_eq!(m.col_index, vec![0]);
    assert_eq!(tran, 55909509111989);
}

#[test]
fn makea_of_order_zero_is_empty() {
    let mut tran = TRAN0;
    let (st, m) = makea(0, 3, 0, &mut tran, AMULT, u64::MAX).unwrap();
    assert_eq!(st.n, 0);
    assert_eq!(m.row_ptr, vec![0]);
    assert!(m.col_index.is_empty());
}

#[test]
fn makea_sample_class_pattern() {
    let mut tran = seed_after_first_draw();
    let (st, m) = makea(1400, 7, 1400 * 8 * 8, &mut tran, AMULT, u64::MAX).unwrap();
    assert_eq!(tran, 37562041448909);
    assert_eq!(st.arow.iter().sum::<usize>(), 11194);
    assert_eq!(m.col_index.len(), 78148);
    assert_eq!(m.row_ptr[1], 43);
    assert_eq!(m.row_ptr[700], 39163);
    assert_eq!(m.row_ptr[1400], 78148);
    assert_eq!(
        &m.col_index[..43],
        &[
            0, 1, 36, 42, 52, 115, 125, 127, 131, 149, 295, 310, 313, 444, 466, 494, 576, 579, 648,
            650, 657, 671, 690, 703, 776, 785, 835, 859, 886, 957, 998, 1009, 1032, 1035, 1102,
            1126, 1128, 1139, 1211, 1223, 1285, 1326, 1377
        ]
    );
    let weighted: u64 = m
        .col_index
        .iter()
        .enumerate()
        .fold(0u64, |acc, (i, c)| (acc + (i as u64 + 1) * (*c as u64)) % (1u64 << 61));
    assert_eq!(weighted, 2139832557134);
    let weighted_ptr: u64 = m
        .row_ptr
        .iter()
        .enumerate()
        .fold(0u64, |acc, (i, p)| (acc + (i as u64 + 1) * (*p as u64)) % (1u64 << 61));
    assert_eq!(weighted_ptr, 51270803792);
}

#[test]
fn makea_pattern_keeps_the_storage_invariants() {
    let mut tran = seed_after_first_draw();
    let (st, m) = makea(300, 6, 300 * 7 * 7, &mut tran, AMULT, u64::MAX).unwrap();
    assert!(st.check());
    assert!(m.check());
    assert_eq!(m.row_ptr.len(), 301);
    assert_eq!(m.row_ptr[0], 0);
    assert_eq!(m.row_ptr[300], m.col_index.len());
    for r in 0..300 {
        assert!(m.row_ptr[r] <= m.row_ptr[r + 1]);
        let row = &m.col_index[m.row_ptr[r]..m.row_ptr[r + 1]];
        for k in 0..row.len() {
            assert!(row[k] >= 0);
            assert!((row[k] as usize) < 300);
            if k > 0 {
                assert!(row[k - 1] < row[k]);
            }
        }
        // The diagonal is always there.
        assert!(m.position(r, r as i32).is_some());
    }
}

#[test]
fn makea_pattern_is_symmetric() {
    let mut tran = seed_after_first_draw();
    let (_, m) = makea(200, 5, 200 * 6 * 6, &mut tran, AMULT, u64::MAX).unwrap();
    for r in 0..200usize {
        for k in m.row_ptr[r]..m.row_ptr[r + 1] {
            let c = m.col_index[k];
            assert!(m.position(c as usize, r as i32).is_some());
        }
    }
}

#[test]
fn makea_stores_exactly_the_cells_that_staged_rows_couple() {
    let mut tran = seed_after_first_draw();
    let (st, m) = makea(40, 3, 40 * 4 * 4, &mut tran, AMULT, u64::MAX).unwrap();
    let mut dense = vec![vec![false; 40]; 40];
    for i in 0..40 {
        for a in 0..st.arow[i] {
            for b in 0..st.arow[i] {
                let e = st.contribution(i, a, b);
                dense[e.row][e.col as usize] = true;
            }
        }
    }
    for r in 0..40 {
        for c in 0..40 {
            assert_eq!(m.position(r, c as i32).is_some(), dense[r][c]);
        }
    }
}

#[test]
fn makea_twice_from_one_seed_gives_identical_arrays() {
    let mut t1 = seed_after_first_draw();
    let mut t2 = seed_after_first_draw();
    let (s1, m1) = makea(500, 7, 500 * 8 * 8, &mut t1, AMULT, u64::MAX).unwrap();
    let (s2, m2) = makea(500, 7, 500 * 8 * 8, &mut t2, AMULT, u64::MAX).unwrap();
    assert_eq!(t1, t2);
    assert_eq!(s1.arow, s2.arow);
    assert_eq!(s1.acol, s2.acol);
    assert_eq!(s1.aelt, s2.aelt);
    assert_eq!(m1.row_ptr, m2.row_ptr);
    assert_eq!(m1.col_index, m2.col_index);
}

#[test]
fn makea_continues_the_stream() {
    // Two halves drawn one after the other stage what one run stages.
    let mut whole = seed_after_first_draw();
    let st = stage_rows(6, 2, &mut whole, AMULT, u64::MAX).unwrap();
    let mut again = seed_after_first_draw();
    let st2 = stage_rows(6, 2, &mut again, AMULT, 1000).unwrap();
    assert_eq!(st.acol, st2.acol);
    assert_eq!(whole, again);
}
