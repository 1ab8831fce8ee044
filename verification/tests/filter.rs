use cic_fixed::CicDecimationFilter;

#[test]
fn cic_decimation_test() {
    let mut filter = CicDecimationFilter::<4, 2>::new();
    let result = filter.filter(&0);
    assert!(result.is_none());
    let result = filter.filter(&1);
    assert!(result.is_none());
    let result = filter.filter(&2);
    assert!(result.is_none());
    let result = filter.filter(&3);
    assert!(result.is_some());
    assert_eq!(result.unwrap(), 10);

    let result = filter.filter(&2);
    assert!(result.is_none());
    let result = filter.filter(&-1);
    assert!(result.is_none());
    let result = filter.filter(&-2);
    assert!(result.is_none());
    let result = filter.filter(&1);
    assert!(result.is_some());
    assert_eq!(result.unwrap(), 16);

    let result = filter.filter(&2);
    assert!(result.is_none());
    let result = filter.filter(&-1);
    assert!(result.is_none());
    let result = filter.filter(&-2);
    assert!(result.is_none());
    let result = filter.filter(&1);
    assert!(result.is_some());
    assert_eq!(result.unwrap(), 0);

    let result = filter.filter(&2);
    assert!(result.is_none());
    let result = filter.filter(&-1);
    assert!(result.is_none());
    let result = filter.filter(&-2);
    assert!(result.is_none());
    let result = filter.filter(&1);
    assert!(result.is_some());
    assert_eq!(result.unwrap(), 0);

    let result = filter.filter(&0);
    assert!(result.is_none());
    let result = filter.filter(&1);
    assert!(result.is_none());
    let result = filter.filter(&2);
    assert!(result.is_none());
    let result = filter.filter(&3);
    assert!(result.is_some());
    assert_eq!(result.unwrap(), 8);

    let result = filter.filter(&3);
    assert!(result.is_none());
    let result = filter.filter(&3);
    assert!(result.is_none());
    let result = filter.filter(&-2);
    assert!(result.is_none());
    let result = filter.filter(&1);
    assert!(result.is_some());
    assert_eq!(result.unwrap(), 32);
}

#[test]
fn overflow_test() {
    let mut filter = CicDecimationFilter::<4, 2>::new();

    for _ in 0..1000 {
        let _ = filter.filter(&i32::MAX);
    }
}

#[test]
fn output_range_test() {
    let mut filter = CicDecimationFilter::<4, 2>::new();

    for _ in 0..1000 {
        let _result = filter.filter(&1);
    }

    for _ in 0..10 {
        if let Some(output) = filter.filter(&1) {
            println!("{}", output);
            assert!(output == 16); //4^2
        }
    }

    for _ in 0..1000 {
        let _result = filter.filter(&-1);
    }

    for _ in 0..10 {
        if let Some(output) = filter.filter(&-1) {
            println!("{}", output);
            assert!(output == -16); //4^2
        }
    }
}

#[test]
fn bit_growth_test() {
    let filter = CicDecimationFilter::<64, 3>::new();
    assert_eq!(filter.bit_growth(), 18);

    let filter = CicDecimationFilter::<32, 5>::new();
    assert_eq!(filter.bit_growth(), 25);

    let filter = CicDecimationFilter::<8, 5>::new();
    assert_eq!(filter.bit_growth(), 15);
}

#[test]
fn bit_growth_rounds_the_logarithm_down() {
    assert_eq!(CicDecimationFilter::<1, 4>::new().bit_growth(), 0);
    assert_eq!(CicDecimationFilter::<2, 4>::new().bit_growth(), 4);
    assert_eq!(CicDecimationFilter::<3, 4>::new().bit_growth(), 4);
    assert_eq!(CicDecimationFilter::<7, 2>::new().bit_growth(), 4);
    assert_eq!(CicDecimationFilter::<9, 1>::new().bit_growth(), 3);
    assert_eq!(CicDecimationFilter::<1000, 3>::new().bit_growth(), 27);
}

#[test]
fn bit_growth_does_not_depend_on_the_state() {
    let mut filter = CicDecimationFilter::<16, 2>::new();
    assert_eq!(filter.bit_growth(), 8);
    for x in 0..100 {
        let _ = filter.filter(&x);
    }
    assert_eq!(filter.bit_growth(), 8);
}

#[test]
fn filter_emits_on_every_mth_call_only() {
    let mut filter = CicDecimationFilter::<5, 3>::new();
    for call in 1..=100 {
        let out = filter.filter(&(call * 37 - 1000));
        assert_eq!(out.is_some(), call % 5 == 0);
    }
}

#[test]
fn filter_of_one_stage_and_factor_one_is_the_identity() {
    let mut filter = CicDecimationFilter::<1, 1>::new();
    for x in [3, -9, 0, i32::MAX, i32::MIN, 17, i32::MAX, i32::MAX] {
        assert_eq!(filter.filter(&x), Some(x));
    }
}

#[test]
fn filter_of_one_stage_sums_each_block() {
    let mut filter = CicDecimationFilter::<3, 1>::new();
    assert_eq!(filter.filter(&4), None);
    assert_eq!(filter.filter(&-6), None);
    assert_eq!(filter.filter(&10), Some(8));
    assert_eq!(filter.filter(&1), None);
    assert_eq!(filter.filter(&1), None);
    assert_eq!(filter.filter(&1), Some(3));
    assert_eq!(filter.filter(&i32::MAX), None);
    assert_eq!(filter.filter(&i32::MAX), None);
    assert_eq!(filter.filter(&2), Some(0));
}

#[test]
fn filter_settles_at_gain_times_constant_input() {
    // M = 3, N = 3: gain 27. Settled from the third output on.
    let mut filter = CicDecimationFilter::<3, 3>::new();
    let mut outputs: Vec<i32> = Vec::new();
    for _ in 0..30 {
        if let Some(v) = filter.filter(&5) {
            outputs.push(v);
        }
    }
    assert_eq!(outputs.len(), 10);
    assert_eq!(outputs[0], 50);
    assert_eq!(outputs[1], 130);
    for v in &outputs[2..] {
        assert_eq!(*v, 135);
    }
}

#[test]
fn filter_settles_again_after_the_input_changes() {
    // M = 4, N = 2: an output is settled once the last 2 * 3 + 1 = 7 inputs
    // were equal.
    let mut filter = CicDecimationFilter::<4, 2>::new();
    let mut outputs: Vec<i32> = Vec::new();
    for x in [9, -3, 7, 7, 7, 7, 7, 7, 7, 7, 7, 7, -2, -2, -2, -2, -2, -2, -2, -2] {
        if let Some(v) = filter.filter(&x) {
            outputs.push(v);
        }
    }
    assert_eq!(outputs.len(), 5);
    assert_eq!(outputs[2], 7 * 16);
    assert_eq!(outputs[4], -2 * 16);
}

#[test]
fn filter_settled_output_wraps_with_the_gain() {
    // Gain 16 on the largest input: 16 * (2^31 - 1) = -16 modulo 2^32.
    let mut filter = CicDecimationFilter::<4, 2>::new();
    let mut last = None;
    for _ in 0..1000 {
        if let Some(v) = filter.filter(&i32::MAX) {
            last = Some(v);
        }
    }
    assert_eq!(last, Some(-16));
}

#[test]
fn independent_filters_do_not_share_state() {
    let mut a = CicDecimationFilter::<2, 2>::new();
    let mut b = CicDecimationFilter::<2, 2>::new();
    assert_eq!(a.filter(&1), None);
    assert_eq!(a.filter(&1), Some(3));
    assert_eq!(b.filter(&10), None);
    assert_eq!(b.filter(&10), Some(30));
    assert_eq!(a.filter(&1), None);
    assert_eq!(a.filter(&1), Some(4));
}

#[test]
fn filter_output_stays_within_gain_times_input_range() {
    // M = 4, N = 2: gain 16. Inputs within -3..=3 give outputs within
    // -48..=48, transients included.
    let mut filter = CicDecimationFilter::<4, 2>::new();
    let mut x: i32 = 1;
    let mut reached_far = false;
    for _ in 0..4000 {
        x = (x * 5 + 3) % 7;
        if let Some(v) = filter.filter(&(x - 3)) {
            assert!((-48..=48).contains(&v));
            if v.abs() > 16 {
                reached_far = true;
            }
        }
    }
    assert!(reached_far);
}

#[test]
fn filter_gain_of_a_power_of_two_factor_is_two_to_the_bit_growth() {
    let mut filter = CicDecimationFilter::<8, 3>::new();
    let bits = filter.bit_growth();
    assert_eq!(bits, 9);
    let mut last = None;
    for _ in 0..8 * 3 {
        if let Some(v) = filter.filter(&1) {
            last = Some(v);
        }
    }
    assert_eq!(last, Some(1 << bits));
}

#[test]
fn filter_first_outputs_are_transients() {
    // M = 2, N = 3, constant input 1: 4, then 8 from the third output on
    // at the latest (gain 2^3).
    let mut filter = CicDecimationFilter::<2, 3>::new();
    let mut outputs: Vec<i32> = Vec::new();
    for _ in 0..12 {
        if let Some(v) = filter.filter(&1) {
            outputs.push(v);
        }
    }
    assert_eq!(outputs, vec![4, 8, 8, 8, 8, 8]);
}
