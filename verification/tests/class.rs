use npb_cg::class::{Class, ClassParams, CGITMAX, EPSILON_DEN, RCOND_DEN, RCOND_NUM, ZETA_SCALE};

#[test]
fn class_table() {
    assert_eq!(
        Class::S.params(),
        ClassParams { na: 1400, nonzer: 7, niter: 15, shift: 10, zeta_verify: 85971775078648 }
    );
    assert_eq!(
        Class::W.params(),
        ClassParams { na: 7000, nonzer: 8, niter: 15, shift: 12, zeta_verify: 103625950871240 }
    );
    assert_eq!(
        Class::A.params(),
        ClassParams { na: 14000, nonzer: 11, niter: 15, shift: 20, zeta_verify: 171302350540290 }
    );
    assert_eq!(
        Class::B.params(),
        ClassParams { na: 75000, nonzer: 13, niter: 75, shift: 60, zeta_verify: 227127454826310 }
    );
    assert_eq!(
        Class::C.params(),
        ClassParams { na: 150000, nonzer: 15, niter: 75, shift: 110, zeta_verify: 289736055928450 }
    );
    assert_eq!(
        Class::D.params(),
        ClassParams { na: 1500000, nonzer: 21, niter: 100, shift: 500, zeta_verify: 525145321057940 }
    );
    assert_eq!(
        Class::E.params(),
        ClassParams { na: 9000000, nonzer: 26, niter: 100, shift: 1500, zeta_verify: 775221645993830 }
    );
}

#[test]
fn class_reference_values_as_fractions() {
    let as_f64 = |c: Class| c.params().zeta_verify as f64 / ZETA_SCALE as f64;
    assert_eq!(as_f64(Class::S), 8.5971775078648);
    assert_eq!(as_f64(Class::W), 10.362595087124);
    assert_eq!(as_f64(Class::A), 17.130235054029);
    assert_eq!(as_f64(Class::B), 22.712745482631);
    assert_eq!(as_f64(Class::C), 28.973605592845);
    assert_eq!(as_f64(Class::D), 52.514532105794);
    assert_eq!(as_f64(Class::E), 77.522164599383);
}

#[test]
fn class_constants() {
    assert_eq!(CGITMAX, 25);
    assert_eq!(RCOND_NUM as f64 / RCOND_DEN as f64, 0.1);
    assert_eq!(1.0 / EPSILON_DEN as f64, 1e-10);
}

#[test]
fn class_letters() {
    let all = [Class::S, Class::W, Class::A, Class::B, Class::C, Class::D, Class::E];
    let letters = ['s', 'w', 'a', 'b', 'c', 'd', 'e'];
    for k in 0..7 {
        assert_eq!(Class::from_letter(letters[k]), all[k]);
        assert_eq!(all[k].letter(), letters[k]);
    }
}

#[test]
fn class_unknown_letters_select_the_sample_size() {
    assert_eq!(Class::from_letter('x'), Class::S);
    assert_eq!(Class::from_letter('S'), Class::S);
    assert_eq!(Class::from_letter('B'), Class::S);
    assert_eq!(Class::from_letter(' '), Class::S);
}

#[test]
fn class_flops() {
    // 2 * 15 * 1400 * (3 + 56 + 25 * (5 + 56) + 3) = 42000 * 1587.
    assert_eq!(Class::S.params().flops(), 66_654_000);
    // 2 * 75 * 75000 * (3 + 182 + 25 * 187 + 3) = 11250000 * 4863.
    assert_eq!(Class::B.params().flops(), 54_708_750_000);
    assert_eq!(Class::E.params().flops(), 2 * 100 * 9_000_000 * (3 + 702 + 25 * 707 + 3));
    let none = ClassParams { na: 0, nonzer: 7, niter: 15, shift: 10, zeta_verify: 0 };
    assert_eq!(none.flops(), 0);
    let huge = ClassParams {
        na: u32::MAX,
        nonzer: u16::MAX,
        niter: u32::MAX,
        shift: 0,
        zeta_verify: 0,
    };
    let per_row: u128 = 65535 * 65536;
    assert_eq!(
        huge.flops(),
        2 * (u32::MAX as u128) * (u32::MAX as u128) * (3 + per_row + 25 * (5 + per_row) + 3)
    );
}

#[test]
fn class_slots() {
    assert_eq!(Class::S.params().slots(), Some(1400 * 8 * 8));
    assert_eq!(Class::B.params().slots(), Some(75000 * 14 * 14));
    assert_eq!(Class::D.params().slots(), Some(1500000 * 22 * 22));
    let wide = ClassParams { na: u32::MAX, nonzer: u16::MAX, niter: 1, shift: 0, zeta_verify: 0 };
    let product: u128 = (u32::MAX as u128) * 65536 * 65536;
    if product <= usize::MAX as u128 {
        assert_eq!(wide.slots(), Some(product as usize));
    } else {
        assert_eq!(wide.slots(), None);
    }
}
