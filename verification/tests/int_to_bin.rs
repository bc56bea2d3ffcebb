use recursion_lib::int_to_bin;

fn common(func: fn(i64) -> [bool; 64]) {
    let mut ans = [false; 64];
    assert_eq!(func(0), ans);

    ans[0] = true;
    assert_eq!(func(1), ans);

    ans[0] = false;
    ans[1] = true;
    assert_eq!(func(2), ans);

    ans[0] = true;
    ans[1] = true;
    assert_eq!(func(3), ans);

    ans[0] = false;
    ans[1] = false;
    ans[2] = true;
    assert_eq!(func(4), ans);

    ans[0] = true;
    ans[1] = false;
    ans[2] = true;
    assert_eq!(func(5), ans);

    ans[0] = false;
    ans[1] = true;
    ans[2] = true;
    assert_eq!(func(6), ans);

    ans[0] = true;
    ans[1] = true;
    ans[2] = true;
    assert_eq!(func(7), ans);

    ans[0] = false;
    ans[1] = false;
    ans[2] = false;
    ans[3] = true;
    assert_eq!(func(8), ans);

    ans[0] = true;
    ans[1] = false;
    ans[2] = false;
    ans[3] = true;
    assert_eq!(func(9), ans);

    ans[0] = false;
    ans[1] = true;
    ans[2] = false;
    ans[3] = true;
    assert_eq!(func(10), ans);

    ans[0] = true;
    ans[1] = true;
    ans[2] = false;
    ans[3] = true;
    assert_eq!(func(11), ans);

    ans[0] = true;
    ans[1] = true;
    ans[2] = false;
    ans[3] = true;
    ans[63] = true;
    assert_eq!(func(-11), ans);
}

#[test]
fn int_to_bin_iterative() {
    common(int_to_bin::iterative);
}

#[test]
fn int_to_bin_recursive() {
    common(int_to_bin::recursive);
}

/// The set digits reconstruct the magnitude: summing `2^i` over the set
/// positions below 63 gives back the absolute value.
fn reconstructs(func: fn(i64) -> [bool; 64]) {
    let samples: [i64; 8] = [1, 2, 12345, 987654321, i64::MAX, -1, -12345, i64::MIN + 1];
    for k in 0..samples.len() {
        let x = samples[k];
        let bits = func(x);
        let mut sum: i64 = 0;
        for i in 0..63 {
            if bits[i] {
                sum += 1i64 << i;
            }
        }
        let expected_mag = if x < 0 { -x } else { x };
        assert_eq!(sum, expected_mag);
        assert_eq!(bits[63], x < 0);
    }
}

#[test]
fn reconstruct_iterative() {
    reconstructs(int_to_bin::iterative);
}

#[test]
fn reconstruct_recursive() {
    reconstructs(int_to_bin::recursive);
}

#[test]
fn variants_agree() {
    let samples: [i64; 9] = [0, 1, -1, 2, 63, 64, 4096, i64::MAX, i64::MIN + 1];
    for k in 0..samples.len() {
        let x = samples[k];
        assert_eq!(int_to_bin::recursive(x), int_to_bin::iterative(x));
    }
}
