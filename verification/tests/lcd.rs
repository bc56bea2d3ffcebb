use recursion_lib::lcd::{self, Expr};

fn common(func: fn(Expr) -> Expr) {
    // (m/(d*m)) -> 1/d
    for i in -20..100 {
        if i != 0 {
            for m in 1..100 {
                let input = Expr::new(1, 1 * m, i * m);

                let real = func(input);
                let expected = Expr::new(1, 1, i);
                assert_eq!(real, expected);
            }
        }
    }

    // (d*m)/d -> m
    for i in -20..100 {
        if i != 0 {
            for m in 1..100 {
                let input = Expr::new(1, i * m, i);

                let real = func(input);
                let expected = Expr::new(m, 1, 1);
                assert_eq!(real, expected);
            }
        }
    }

    // (n*m)/(d*m) -> n/d
    // inputs must be primes
    let primes: [i64; 41] = [
        2, 3, 5, 7, 11, 13, 17, 19, 23, 29, 31, 37, 41, 43, 47, 53, 59, 61, 67, 71, 73, 79, 83,
        89, 97, 101, 103, 107, 109, 113, 127, 131, 137, 139, 149, 151, 157, 163, 167, 173, 179,
    ];

    for i in 0..primes.len() {
        for j in 0..i {
            let n = primes[j];
            let d = primes[i];

            if d != 0 {
                for m in 1..100 {
                    let input = Expr::new(1, n * m, d * m);

                    let real = func(input);
                    let expected = Expr::new(1, n, d);
                    assert_eq!(real, expected);
                }
            }
        }
    }
}

#[test]
fn lcd_iterative() {
    common(lcd::iterative);
}

#[test]
fn lcd_recursive() {
    common(lcd::recursive);
}

fn scenarios(func: fn(Expr) -> Expr) {
    // a zero denominator passes through unchanged
    assert_eq!(func(Expr::new(3, 7, 0)), Expr::new(3, 7, 0));
    assert_eq!(func(Expr::new(1, -8, 0)), Expr::new(1, -8, 0));

    // equal numerator and denominator give the unit expression
    assert_eq!(func(Expr::new(5, 9, 9)), Expr::new(1, 1, 1));
    assert_eq!(func(Expr::new(0, -4, -4)), Expr::new(1, 1, 1));

    // a common factor smaller than the denominator is divided out
    assert_eq!(func(Expr::new(1, 21, 45)), Expr::new(1, 7, 15));
    assert_eq!(func(Expr::new(1, 6, 10)), Expr::new(1, 3, 5));

    // the whole-number coefficient is extracted by division
    assert_eq!(func(Expr::new(1, 12, 4)), Expr::new(3, 1, 1));
    assert_eq!(func(Expr::new(1, 22, 10)), Expr::new(2, 11, 10));

    // a denominator that is a multiple of the numerator short-circuits
    assert_eq!(func(Expr::new(1, 4, 12)), Expr::new(1, 1, 3));
    assert_eq!(func(Expr::new(1, 11, 22)), Expr::new(1, 1, 2));

    // coprime fractions come back unchanged
    assert_eq!(func(Expr::new(1, 7, 9)), Expr::new(1, 7, 9));

    // negative terms keep their signs through the division steps, and
    // the factor scan never runs for a denominator below 2
    assert_eq!(func(Expr::new(1, -3, 6)), Expr::new(1, 1, -2));
    assert_eq!(func(Expr::new(1, 6, -4)), Expr::new(1, 6, -4));
}

#[test]
fn scenarios_iterative() {
    scenarios(lcd::iterative);
}

#[test]
fn scenarios_recursive() {
    scenarios(lcd::recursive);
}
