use npb_cg::class::{Class, CGITMAX, EPSILON_DEN, RCOND_DEN, RCOND_NUM, ZETA_SCALE};
use npb_cg::driver::{step, Action, Event, Phase};
use npb_cg::makea::makea;
use npb_cg::randdp::{randlc, AMULT, R46, TRAN0};
use npb_cg::csr::Csr;
use npb_cg::sparse::sparse;
use npb_cg::staging::Staging;

fn values(st: &Staging, m: &Csr, rcond: f64, shift: f64) -> Vec<f64> {
    let mut a = vec![0.0f64; m.nnz()];
    let ratio = rcond.powf(1.0 / st.n as f64);
    let mut size = 1.0f64;
    for i in 0..st.n {
        for nza in 0..st.arow[i] {
            for nzrow in 0..st.arow[i] {
                let e = st.contribution(i, nza, nzrow);
                let scale = size * (e.row_elt as f64 / R46 as f64);
                let mut va = (e.col_elt as f64 / R46 as f64) * scale;
                if e.shifted {
                    va = va + rcond - shift;
                }
                let k = m.position(e.row, e.col).unwrap();
                a[k] += va;
            }
        }
        size *= ratio;
    }
    a
}

fn reduce(terms: &[f64], parts: usize) -> f64 {
    let chunk = (terms.len() + parts - 1) / parts;
    terms.chunks(chunk.max(1)).map(|c| c.iter().sum::<f64>()).sum()
}

fn dot(x: &[f64], y: &[f64], parts: usize) -> f64 {
    let terms: Vec<f64> = x.iter().zip(y).map(|(a, b)| a * b).collect();
    reduce(&terms, parts)
}

fn matvec(m: &Csr, a: &[f64], p: &[f64]) -> Vec<f64> {
    (0..m.row_ptr.len() - 1)
        .map(|j| (m.row_ptr[j]..m.row_ptr[j + 1]).map(|k| a[k] * p[m.col_index[k] as usize]).sum())
        .collect()
}

fn guard(d: f64) -> f64 {
    if d.abs() < 1e-30 {
        1e-30
    } else {
        d
    }
}

fn conj_grad(m: &Csr, a: &[f64], x: &[f64], parts: usize) -> (Vec<f64>, f64) {
    let n = x.len();
    let mut z = vec![0.0f64; n];
    let mut r = x.to_vec();
    let mut p = r.clone();
    let mut rho = dot(&r, &r, parts);
    for _ in 0..CGITMAX {
        let q = matvec(m, a, &p);
        let d = guard(dot(&p, &q, parts));
        let alpha = rho / d;
        let rho0 = guard(rho);
        for j in 0..n {
            z[j] += alpha * p[j];
            r[j] -= alpha * q[j];
        }
        rho = dot(&r, &r, parts);
        let beta = rho / rho0;
        for j in 0..n {
            p[j] = r[j] + beta * p[j];
        }
    }
    let az = matvec(m, a, &z);
    let diff: Vec<f64> = x.iter().zip(&az).map(|(xi, ri)| (xi - ri) * (xi - ri)).collect();
    let sum = reduce(&diff, parts).max(0.0);
    (z, sum.sqrt())
}

fn run(class: Class, parts: usize) -> (f64, bool, u32) {
    let params = class.params();
    let n = params.na as usize;
    let shift = params.shift as f64;
    let rcond = RCOND_NUM as f64 / RCOND_DEN as f64;
    let mut phase = Phase::Init;
    let mut action = step(phase, Event::Started, params.niter).1;
    let mut tran = TRAN0;
    let mut matrix: Option<(Csr, Vec<f64>)> = None;
    let mut x = vec![1.0f64; n];
    let mut z = vec![0.0f64; n];
    let mut zeta = 0.0f64;
    let mut verified = false;
    let mut recorded = 0;
    loop {
        let event = match action {
            Action::Synthesize => {
                randlc(&mut tran, AMULT);
                match makea(n, params.nonzer as usize, params.slots().unwrap(), &mut tran, AMULT, u64::MAX) {
                    Ok((st, m)) => {
                        let a = values(&st, &m, rcond, shift);
                        matrix = Some((m, a));
                        Event::MatrixReady
                    }
                    Err(_) => Event::MatrixFailed,
                }
            }
            Action::Solve { .. } => {
                let (m, a) = matrix.as_ref().unwrap();
                z = conj_grad(m, a, &x, parts).0;
                Event::Solved
            }
            Action::ResetIterate => {
                x = vec![1.0f64; n];
                zeta = 0.0;
                Event::Reset
            }
            Action::Update { it } => {
                let norm_temp1 = guard(dot(&x, &z, parts));
                let norm_temp2 = 1.0 / guard(dot(&z, &z, parts)).sqrt();
                zeta = shift + 1.0 / norm_temp1;
                for j in 0..n {
                    x[j] = norm_temp2 * z[j];
                }
                recorded = it;
                Event::Updated
            }
            Action::Compare => {
                let reference = params.zeta_verify as f64 / ZETA_SCALE as f64;
                let err = (zeta - reference).abs() / reference;
                verified = err <= 1.0 / EPSILON_DEN as f64;
                Event::Compared
            }
            Action::Report | Action::Abort | Action::Ignore => break,
        };
        let (p, a) = step(phase, event, params.niter);
        phase = p;
        action = a;
    }
    assert_eq!(phase, Phase::Done);
    (zeta, verified, recorded)
}

#[test]
fn sample_class_verifies_with_one_partition() {
    let (zeta, verified, recorded) = run(Class::S, 1);
    assert!(verified);
    assert_eq!(recorded, 15);
    assert!((zeta - 8.5971775078648).abs() / 8.5971775078648 <= 1e-10);
}

#[test]
fn sample_class_verifies_with_four_partitions() {
    let (zeta, verified, recorded) = run(Class::S, 4);
    assert!(verified);
    assert_eq!(recorded, 15);
    assert!((zeta - 8.5971775078648).abs() / 8.5971775078648 <= 1e-10);
}

#[test]
fn sample_class_values_fill_every_cell() {
    let mut tran = TRAN0;
    randlc(&mut tran, AMULT);
    let (st, m) = makea(1400, 7, 1400 * 8 * 8, &mut tran, AMULT, u64::MAX).unwrap();
    let a = values(&st, &m, 0.1, 10.0);
    assert_eq!(a.len(), 78148);
    // Every diagonal cell carries the shift: it is the only negative part.
    for r in 0..1400usize {
        let k = m.position(r, r as i32).unwrap();
        assert!(a[k] < 0.0);
        assert!(a[k] > 0.1 - 10.0);
    }
}

fn diagonal_pattern(n: usize) -> Csr {
    let st = Staging {
        n,
        stride: 1,
        arow: vec![1; n],
        acol: (0..n as i32).collect(),
        aelt: vec![0; n],
    };
    sparse(&st, n).unwrap()
}

#[test]
fn diagonal_system_is_solved_within_the_fixed_iterations() {
    let m = diagonal_pattern(3);
    assert_eq!(m.row_ptr, vec![0, 1, 2, 3]);
    let a = vec![2.0, 3.0, 4.0];
    let x = vec![1.0, 1.0, 1.0];
    for parts in [1usize, 4] {
        let (z, rnorm) = conj_grad(&m, &a, &x, parts);
        assert!(rnorm < 1e-10);
        assert!((z[0] - 0.5).abs() < 1e-12);
        assert!((z[1] - 1.0 / 3.0).abs() < 1e-12);
        assert!((z[2] - 0.25).abs() < 1e-12);
    }
}

#[test]
fn zero_denominator_is_clamped() {
    assert_eq!(guard(0.0), 1e-30);
    assert_eq!(guard(-0.0), 1e-30);
    assert_eq!(guard(1e-31), 1e-30);
    assert_eq!(guard(-1e-31), 1e-30);
    assert_eq!(guard(2e-30), 2e-30);
    assert_eq!(guard(-3.0), -3.0);
    let alpha = 1.0 / guard(0.0);
    assert!(alpha.is_finite());
    // A matrix of zeros makes every direction degenerate.
    let m = diagonal_pattern(3);
    let (z, rnorm) = conj_grad(&m, &[0.0, 0.0, 0.0], &[1.0, 1.0, 1.0], 1);
    assert!(z.iter().all(|v| v.is_finite()));
    assert!(rnorm.is_finite());
}
