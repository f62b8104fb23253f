use fractal_render::iterate::{escape_time, newton_iterate};

type Point = (f64, f64);

fn left_the_disc(z: Point) -> bool {
    z.0 * z.0 + z.1 * z.1 > 4.0
}

fn square_plus(z: Point, c: Point) -> Point {
    (z.0 * z.0 - z.1 * z.1 + c.0, 2.0 * z.0 * z.1 + c.1)
}

fn mandelbrot(c: Point, budget: u32) -> Option<u32> {
    escape_time((0.0, 0.0), budget, left_the_disc, |z| square_plus(z, c))
}

fn times(a: Point, b: Point) -> Point {
    (a.0 * b.0 - a.1 * b.1, a.0 * b.1 + a.1 * b.0)
}

fn over(a: Point, b: Point) -> Point {
    let d = b.0 * b.0 + b.1 * b.1;
    ((a.0 * b.0 + a.1 * b.1) / d, (a.1 * b.0 - a.0 * b.1) / d)
}

// One Newton correction for z^3 - 1, or nothing where it is below 1e-7.
fn cubic_correction(z: Point) -> Option<Point> {
    let square = times(z, z);
    let cube = times(square, z);
    let delta = over((cube.0 - 1.0, cube.1), (3.0 * square.0, 3.0 * square.1));
    if (delta.0 * delta.0 + delta.1 * delta.1).sqrt() < 1e-7 {
        None
    } else {
        Some((z.0 - delta.0, z.1 - delta.1))
    }
}

#[test]
fn the_origin_does_not_escape_in_255_steps() {
    assert_eq!(mandelbrot((0.0, 0.0), 255), None);
}

#[test]
fn two_i_escapes_at_step_two() {
    assert_eq!(mandelbrot((0.0, 2.0), 255), Some(2));
}

#[test]
fn the_origin_never_escapes_whatever_the_budget() {
    for budget in [0u32, 1, 2, 3, 255, 256, 10_000, 1_000_000] {
        assert_eq!(mandelbrot((0.0, 0.0), budget), None);
    }
}

#[test]
fn a_larger_budget_keeps_the_escape_count() {
    for budget in [3u32, 4, 10, 255, 1000, u32::MAX] {
        assert_eq!(mandelbrot((0.0, 2.0), budget), Some(2));
    }
    let slow = mandelbrot((0.26, 0.0), 1000);
    assert_eq!(slow, Some(30));
    for budget in [31u32, 32, 255, 5000] {
        assert_eq!(mandelbrot((0.26, 0.0), budget), slow);
    }
}

#[test]
fn a_budget_at_or_below_the_escape_step_reports_no_escape() {
    assert_eq!(mandelbrot((0.0, 2.0), 0), None);
    assert_eq!(mandelbrot((0.0, 2.0), 1), None);
    assert_eq!(mandelbrot((0.0, 2.0), 2), None);
    assert_eq!(mandelbrot((0.0, 2.0), 3), Some(2));
}

#[test]
fn a_start_outside_the_disc_escapes_at_step_zero() {
    assert_eq!(escape_time((3.0, 0.0), 255, left_the_disc, |z| square_plus(z, (0.0, 0.0))), Some(0));
    assert_eq!(escape_time((3.0, 0.0), 0, left_the_disc, |z| square_plus(z, (0.0, 0.0))), None);
}

#[test]
fn the_escape_count_is_the_first_index_that_passes_the_test() {
    // An orbit over the integers: 0, 1, 2, ...; escaped from 7 on.
    let count = escape_time(0u64, 100, |z| z >= 7, |z| z + 1);
    assert_eq!(count, Some(7));
    assert_eq!(escape_time(0u64, 7, |z| z >= 7, |z| z + 1), None);
    assert_eq!(escape_time(0u64, 8, |z| z >= 7, |z| z + 1), Some(7));
    // The test is not asked again once it has held: the orbit 5, 6, 7, 0, ...
    assert_eq!(escape_time(5u64, 100, |z| z >= 7, |z| (z + 1) % 8), Some(2));
}

#[test]
fn newton_counts_down_from_the_budget() {
    // Corrections over the integers: one step up until 10 is reached.
    let advance = |z: u32| if z >= 10 { None } else { Some(z + 1) };
    assert_eq!(newton_iterate(0u32, 255, advance), (245, 10));
    assert_eq!(newton_iterate(4u32, 255, advance), (249, 10));
    assert_eq!(newton_iterate(10u32, 255, advance), (255, 10));
    assert_eq!(newton_iterate(12u32, 3, advance), (3, 12));
}

#[test]
fn newton_out_of_budget_reports_no_steps_left() {
    let advance = |z: u32| if z >= 10 { None } else { Some(z + 1) };
    assert_eq!(newton_iterate(0u32, 5, advance), (0, 5));
    // The budget runs out on the very step that reaches the goal.
    assert_eq!(newton_iterate(0u32, 10, advance), (0, 10));
    assert_eq!(newton_iterate(0u32, 11, advance), (1, 10));
    assert_eq!(newton_iterate(3u32, 0, advance), (0, 3));
    assert_eq!(newton_iterate(10u32, 0, advance), (0, 10));
}

#[test]
fn newton_on_a_root_stops_at_once() {
    assert_eq!(newton_iterate((1.0, 0.0), 255, cubic_correction), (255, (1.0, 0.0)));
}

#[test]
fn newton_converges_to_a_cube_root_of_one() {
    let (remaining, z) = newton_iterate((2.0, 0.0), 255, cubic_correction);
    assert!(remaining > 0 && remaining < 255);
    assert!((z.0 - 1.0).abs() < 1e-6 && z.1.abs() < 1e-6);
    let (remaining, z) = newton_iterate((-1.0, 1.0), 255, cubic_correction);
    assert!(remaining > 0 && remaining < 255);
    assert!((z.0 + 0.5).abs() < 1e-6 && (z.1 - 0.75f64.sqrt()).abs() < 1e-6);
}

#[test]
fn newton_twice_gives_the_same_bits() {
    for start in [(2.0, 0.0), (-1.0, 1.0), (0.3, -0.7), (-0.001, 0.002), (0.0, 0.0)] {
        let first = newton_iterate(start, 255, cubic_correction);
        let second = newton_iterate(start, 255, cubic_correction);
        assert_eq!(first.0, second.0);
        assert_eq!(first.1 .0.to_bits(), second.1 .0.to_bits());
        assert_eq!(first.1 .1.to_bits(), second.1 .1.to_bits());
    }
}

#[test]
fn newton_at_a_vanishing_derivative_does_not_converge() {
    // At the origin the correction is not a number: the run uses up its budget.
    let (remaining, _) = newton_iterate((0.0, 0.0), 255, cubic_correction);
    assert_eq!(remaining, 0);
}

#[test]
fn newton_with_a_larger_budget_takes_the_same_steps() {
    let (left_small, z_small) = newton_iterate((2.0, 0.0), 100, cubic_correction);
    let (left_large, z_large) = newton_iterate((2.0, 0.0), 255, cubic_correction);
    assert!(left_small > 0);
    assert_eq!(100 - left_small, 255 - left_large);
    assert_eq!(z_small.0.to_bits(), z_large.0.to_bits());
    assert_eq!(z_small.1.to_bits(), z_large.1.to_bits());
}
