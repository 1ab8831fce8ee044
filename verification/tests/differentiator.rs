use cic_fixed::differentiator::Differentiator;

#[test]
fn differentiate_test() {
    let mut differentiator = Differentiator::new();
    let result = differentiator.differentiate(2);
    assert_eq!(result, 2);
    let result = differentiator.differentiate(5);
    assert_eq!(result, 3);
    let result = differentiator.differentiate(-1);
    assert_eq!(result, -6);
}

#[test]
fn differentiate_wraps() {
    let mut differentiator = Differentiator::new();
    assert_eq!(differentiator.differentiate(1), 1);
    assert_eq!(differentiator.differentiate(i32::MIN), i32::MAX);
    assert_eq!(differentiator.differentiate(i32::MAX), -1);
    assert_eq!(differentiator.differentiate(-1), i32::MIN);
}

#[test]
fn differentiate_first_call_subtracts_zero() {
    let mut differentiator = Differentiator::new();
    assert_eq!(differentiator.differentiate(i32::MIN), i32::MIN);
    let mut differentiator = Differentiator::new();
    assert_eq!(differentiator.differentiate(i32::MAX), i32::MAX);
}

#[test]
fn differentiate_returns_input_minus_previous_input() {
    let inputs: [i32; 7] = [9, 9, -4, i32::MAX, i32::MIN, 0, 123];
    let mut differentiator = Differentiator::new();
    let mut previous: i32 = 0;
    for x in inputs {
        assert_eq!(differentiator.differentiate(x), x.wrapping_sub(previous));
        previous = x;
    }
}

#[test]
fn differentiator_default_is_new() {
    let mut a = Differentiator::default();
    assert_eq!(a.differentiate(-8), -8);
    assert_eq!(a.differentiate(-8), 0);
}

#[test]
fn differentiator_undoes_integrator_overflow() {
    let mut integrator = cic_fixed::integrator::Integrator::new();
    let mut differentiator = Differentiator::new();
    for _ in 0..10 {
        let sum = integrator.integrate(i32::MAX);
        assert_eq!(differentiator.differentiate(sum), i32::MAX);
    }
}
