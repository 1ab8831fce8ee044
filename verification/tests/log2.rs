use cic_fixed::log2::ilog2;

#[test]
fn ilog2_of_powers_of_two() {
    let mut x: usize = 1;
    for l in 0..usize::BITS {
        assert_eq!(ilog2(x), l);
        if l + 1 < usize::BITS {
            x *= 2;
        }
    }
}

#[test]
fn ilog2_rounds_down() {
    assert_eq!(ilog2(1), 0);
    assert_eq!(ilog2(2), 1);
    assert_eq!(ilog2(3), 1);
    assert_eq!(ilog2(4), 2);
    assert_eq!(ilog2(7), 2);
    assert_eq!(ilog2(8), 3);
    assert_eq!(ilog2(1023), 9);
    assert_eq!(ilog2(1024), 10);
    assert_eq!(ilog2(usize::MAX), usize::BITS - 1);
}

#[test]
fn ilog2_agrees_with_the_standard_library() {
    for x in 1usize..5000 {
        assert_eq!(ilog2(x), x.ilog2());
    }
}
