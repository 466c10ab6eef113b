use hampel::{Replacement, Window};

#[test]
fn warm_up_returns_init_value() {
    for v in [0, 1, -1, 12345, -987654, i32::MAX, i32::MIN] {
        let mut w = Window::<5>::new(v, 3000);
        assert_eq!(w.update(v), v as i64);
        let mut e = Window::<4>::with_replacement(v, 0, Replacement::Extrapolation);
        assert_eq!(e.update(v), v as i64);
    }
}

#[test]
fn constant_input_is_returned_forever() {
    let mut w = Window::<7>::new(-3, 500);
    // The first samples of 42 are outliers of the seeded window.
    assert_eq!(w.update(42), -3);
    for _ in 0..6 {
        w.update(42);
    }
    for _ in 0..100 {
        assert_eq!(w.update(42), 42);
    }
    assert_eq!(w.samples(), vec![42; 7]);
}

#[test]
fn outlier_in_flat_window_gives_median() {
    let mut w = Window::<5>::new(0, 3000);
    for _ in 0..4 {
        assert_eq!(w.update(0), 0);
    }
    assert_eq!(w.update(1000), 0);
}

#[test]
fn inlier_passes_under_mild_noise() {
    let mut w = Window::<5>::new(0, 3000);
    w.update(-1000);
    w.update(500);
    w.update(1000);
    w.update(-500);
    assert_eq!(w.update(-900), -900);
}

#[test]
fn even_window_uses_upper_middle() {
    let mut w = Window::<4>::new(1, 0);
    w.update(2);
    w.update(3);
    // The window is [1, 2, 3, 4]; with a zero threshold 4 is an outlier and
    // is replaced by the upper of the two middle values.
    assert_eq!(w.update(4), 3);
}

#[test]
fn extrapolation_continues_a_line() {
    let mut w = Window::<5>::with_replacement(0, 3000, Replacement::Extrapolation);
    w.update(0);
    w.update(1);
    w.update(2);
    w.update(3);
    assert_eq!(w.update(1000), 4);

    let mut w = Window::<5>::with_replacement(0, 3000, Replacement::Extrapolation);
    assert_eq!(w.update(0), 0);
    assert_eq!(w.update(1000), 0);
    assert_eq!(w.update(2000), 1000);
    assert_eq!(w.update(3000), 3000);
    assert_eq!(w.update(1_000_000), 4000);
}

#[test]
fn extrapolation_rounds_down() {
    // Points (0, 0), (1, 0), (2, 1): the line gives 4/3 at x = 3.
    let mut w = Window::<4>::with_replacement(0, 0, Replacement::Extrapolation);
    w.update(0);
    w.update(0);
    w.update(1);
    assert_eq!(w.update(100), 1);
    // Points (0, 0), (1, 0), (2, -1): the line gives -4/3 at x = 3.
    let mut w = Window::<4>::with_replacement(0, 0, Replacement::Extrapolation);
    w.update(0);
    w.update(0);
    w.update(-1);
    assert_eq!(w.update(100), -2);
}

#[test]
fn extrapolation_may_leave_the_sample_range() {
    let mut w = Window::<4>::with_replacement(0, 0, Replacement::Extrapolation);
    assert_eq!(w.update(i32::MIN), 0);
    assert_eq!(w.update(i32::MAX), -2863311531);
    assert_eq!(w.update(i32::MAX), 2147483647);
    assert_eq!(w.update(0), 5010795177);
}

#[test]
fn threshold_boundary_is_inclusive() {
    // Median 0 and median absolute deviation 10000; one sigma allows
    // a distance of exactly 14826.
    let mut w = Window::<5>::new(0, 1000);
    w.update(-10000);
    w.update(10000);
    w.update(-20000);
    assert_eq!(w.update(14826), 14826);

    let mut w = Window::<5>::new(0, 1000);
    w.update(-10000);
    w.update(10000);
    w.update(-20000);
    assert_eq!(w.update(14827), 0);
}

#[test]
fn full_turnover_overwrites_every_seed() {
    let mut w = Window::<5>::new(7, 3000);
    assert_eq!(w.oldest(), 0);
    for (k, x) in [1, 2, 3, 4, 5].into_iter().enumerate() {
        w.update(x);
        assert_eq!(w.oldest(), (k + 1) % 5);
    }
    assert_eq!(w.oldest(), 0);
    assert_eq!(w.samples(), vec![1, 2, 3, 4, 5]);
    w.update(6);
    assert_eq!(w.oldest(), 1);
    assert_eq!(w.samples(), vec![2, 3, 4, 5, 6]);
}

#[test]
fn window_size_below_three_is_refused() {
    assert!(Window::<2>::try_new(0, 3000, Replacement::Median).is_none());
    assert!(Window::<1>::try_new(0, 3000, Replacement::Median).is_none());
    assert!(Window::<0>::try_new(0, 3000, Replacement::Extrapolation).is_none());
    let w = Window::<3>::try_new(5, 3000, Replacement::Extrapolation).unwrap();
    assert_eq!(w.samples(), vec![5, 5, 5]);
    assert_eq!(w.replacement(), Replacement::Extrapolation);
    assert_eq!(Window::<3>::new(0, 0).replacement(), Replacement::Median);
}
