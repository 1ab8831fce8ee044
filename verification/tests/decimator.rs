use cic_fixed::decimator::Decimator;

#[test]
fn decimator_test() {
    let mut decimator = Decimator::<4>::new();
    let result = decimator.decimate(1);
    assert!(result.is_none());
    let result = decimator.decimate(2);
    assert!(result.is_none());
    let result = decimator.decimate(3);
    assert!(result.is_none());
    let result = decimator.decimate(4);
    assert!(result.is_some());
    assert_eq!(result.unwrap(), 4);

    let result = decimator.decimate(1);
    assert!(result.is_none());
    let result = decimator.decimate(2);
    assert!(result.is_none());
    let result = decimator.decimate(3);
    assert!(result.is_none());
    let result = decimator.decimate(4);
    assert!(result.is_some());
    assert_eq!(result.unwrap(), 4);
}

#[test]
fn decimator_of_factor_one_passes_everything() {
    let mut decimator = Decimator::<1>::new();
    assert_eq!(decimator.decimate(5), Some(5));
    assert_eq!(decimator.decimate(-5), Some(-5));
    assert_eq!(decimator.decimate(i32::MIN), Some(i32::MIN));
}

#[test]
fn decimator_emits_once_in_every_window() {
    let mut decimator = Decimator::<3>::new();
    let mut emitted: Vec<(i32, i32)> = Vec::new();
    for call in 1..=12 {
        if let Some(v) = decimator.decimate(100 + call) {
            emitted.push((call, v));
        }
    }
    assert_eq!(emitted, vec![(3, 103), (6, 106), (9, 109), (12, 112)]);
}

#[test]
fn decimator_constant_stream() {
    let mut decimator = Decimator::<5>::new();
    let mut count = 0;
    for call in 1..=50 {
        let out = decimator.decimate(7);
        assert_eq!(out.is_some(), call % 5 == 0);
        if let Some(v) = out {
            assert_eq!(v, 7);
            count += 1;
        }
    }
    assert_eq!(count, 10);
}

#[test]
fn decimator_copy_keeps_the_count() {
    let mut a = Decimator::<2>::new();
    assert_eq!(a.decimate(1), None);
    let mut b = a;
    assert_eq!(a.decimate(2), Some(2));
    assert_eq!(b.decimate(3), Some(3));
    assert_eq!(b.decimate(4), None);
}

#[test]
fn decimator_any_window_of_m_calls_holds_one_output() {
    for skipped in 0..7 {
        let mut decimator = Decimator::<7>::new();
        for _ in 0..skipped {
            let _ = decimator.decimate(0);
        }
        let mut seen: Vec<i32> = Vec::new();
        for value in 0..7 {
            if let Some(v) = decimator.decimate(value) {
                seen.push(v);
            }
        }
        assert_eq!(seen, vec![6 - skipped]);
    }
}
