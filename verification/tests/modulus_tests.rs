use number_theory::modulus::Modulus;

#[test]
fn usize_modulus_scenarios() {
    assert_eq!(1usize.modulus(1), 1);
    assert_eq!(38usize.modulus(12), 14);
    assert_eq!(2usize.modulus(5), 7);
}

#[test]
fn isize_modulus_scenarios() {
    assert_eq!(1isize.modulus(1), 1);
    assert_eq!(38isize.modulus(12), 14);
    assert_eq!(2isize.modulus(5), 7);
}

#[test]
fn negative_dividend_gets_canonical_residue() {
    assert_eq!((-7i64).modulus(5), 3);
    assert_eq!((-12i32).modulus(5), -2 + 5);
}

#[test]
fn modulus_is_remainder_plus_divisor() {
    let samples: Vec<(i64, i64)> = vec![
        (1, 1),
        (38, 12),
        (2, 5),
        (0, 7),
        (-7, 5),
        (-40, 12),
        (7, -5),
        (-7, -5),
        (36, 12),
    ];
    for (a, b) in samples {
        assert_eq!(a.modulus(b), a % b + b);
    }
}
