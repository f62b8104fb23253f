use fractal_render::classify::{Classification, Octant, Sign};
use fractal_render::color::{
    brightness, colorize_gray, colorize_rgb, palette, Rgb, SampleFormat, MAX_SAMPLE,
};

#[test]
fn signs_follow_the_two_comparisons() {
    assert_eq!(Sign::from_tests(true, false), Sign::Positive);
    assert_eq!(Sign::from_tests(false, true), Sign::Negative);
    assert_eq!(Sign::from_tests(false, false), Sign::Zero);
    assert_eq!(Sign::from_tests(true, true), Sign::Positive);
}

#[test]
fn each_pair_of_signs_names_its_octant() {
    assert_eq!(Octant::from_signs(Sign::Positive, Sign::Zero), Some(Octant::East));
    assert_eq!(Octant::from_signs(Sign::Positive, Sign::Positive), Some(Octant::NorthEast));
    assert_eq!(Octant::from_signs(Sign::Zero, Sign::Positive), Some(Octant::North));
    assert_eq!(Octant::from_signs(Sign::Negative, Sign::Positive), Some(Octant::NorthWest));
    assert_eq!(Octant::from_signs(Sign::Negative, Sign::Zero), Some(Octant::West));
    assert_eq!(Octant::from_signs(Sign::Negative, Sign::Negative), Some(Octant::SouthWest));
    assert_eq!(Octant::from_signs(Sign::Zero, Sign::Negative), Some(Octant::South));
    assert_eq!(Octant::from_signs(Sign::Positive, Sign::Negative), Some(Octant::SouthEast));
    assert_eq!(Octant::from_signs(Sign::Zero, Sign::Zero), None);
}

#[test]
fn an_octant_gives_back_its_signs() {
    let all = [
        Octant::East,
        Octant::NorthEast,
        Octant::North,
        Octant::NorthWest,
        Octant::West,
        Octant::SouthWest,
        Octant::South,
        Octant::SouthEast,
    ];
    for octant in all {
        let (re, im) = octant.signs();
        assert_eq!(Octant::from_signs(re, im), Some(octant));
    }
    assert_eq!(Octant::NorthWest.signs(), (Sign::Negative, Sign::Positive));
    assert_eq!(Octant::South.signs(), (Sign::Zero, Sign::Negative));
}

#[test]
fn an_escape_is_classified_by_its_count() {
    assert_eq!(Classification::from_escape(None), Classification::Background);
    assert_eq!(
        Classification::from_escape(Some(2)),
        Classification::Reached { count: 2, bucket: None }
    );
    assert_eq!(
        Classification::from_escape(Some(0)),
        Classification::Reached { count: 0, bucket: None }
    );
    assert!(Classification::from_escape(None).is_background());
    assert!(!Classification::from_escape(Some(0)).is_background());
}

#[test]
fn a_newton_run_is_classified_by_steps_taken_and_octant() {
    assert_eq!(
        Classification::from_newton(255, 250, Sign::Positive, Sign::Zero),
        Classification::Reached { count: 5, bucket: Some(Octant::East) }
    );
    assert_eq!(
        Classification::from_newton(255, 255, Sign::Negative, Sign::Negative),
        Classification::Reached { count: 0, bucket: Some(Octant::SouthWest) }
    );
    assert_eq!(
        Classification::from_newton(1000, 1, Sign::Zero, Sign::Zero),
        Classification::Reached { count: 999, bucket: None }
    );
}

#[test]
fn a_newton_run_out_of_budget_is_background() {
    assert_eq!(
        Classification::from_newton(255, 0, Sign::Positive, Sign::Positive),
        Classification::Background
    );
    assert_eq!(
        Classification::from_newton(0, 0, Sign::Negative, Sign::Zero),
        Classification::Background
    );
}

#[test]
fn brightness_falls_with_the_count_and_is_clamped() {
    assert_eq!(MAX_SAMPLE, 255);
    assert_eq!(brightness(0), 255);
    assert_eq!(brightness(1), 254);
    assert_eq!(brightness(2), 253);
    assert_eq!(brightness(254), 1);
    assert_eq!(brightness(255), 0);
    assert_eq!(brightness(256), 0);
    assert_eq!(brightness(u32::MAX), 0);
    for count in 0..300u32 {
        assert!(brightness(count) >= brightness(count + 1));
    }
}

#[test]
fn gray_is_black_for_background_and_bright_for_fast_escapes() {
    assert_eq!(colorize_gray(Classification::Background), 0);
    assert_eq!(colorize_gray(Classification::Reached { count: 2, bucket: None }), 253);
    assert_eq!(
        colorize_gray(Classification::Reached { count: 0, bucket: Some(Octant::West) }),
        255
    );
    assert_eq!(colorize_gray(Classification::Reached { count: 254, bucket: None }), 1);
    assert_eq!(colorize_gray(Classification::Reached { count: 4000, bucket: None }), 0);
}

#[test]
fn each_octant_has_its_colour() {
    assert_eq!(palette(Octant::NorthEast, 100), Rgb { red: 100, green: 0, blue: 0 });
    assert_eq!(palette(Octant::East, 100), Rgb { red: 100, green: 50, blue: 0 });
    assert_eq!(palette(Octant::SouthEast, 100), Rgb { red: 100, green: 100, blue: 0 });
    assert_eq!(palette(Octant::South, 100), Rgb { red: 0, green: 100, blue: 0 });
    assert_eq!(palette(Octant::SouthWest, 100), Rgb { red: 0, green: 100, blue: 66 });
    assert_eq!(palette(Octant::West, 100), Rgb { red: 0, green: 66, blue: 100 });
    assert_eq!(palette(Octant::NorthWest, 100), Rgb { red: 25, green: 25, blue: 100 });
    assert_eq!(palette(Octant::North, 100), Rgb { red: 100, green: 0, blue: 100 });
}

#[test]
fn the_palette_holds_at_both_ends_of_the_brightness() {
    assert_eq!(palette(Octant::East, 255), Rgb { red: 255, green: 127, blue: 0 });
    assert_eq!(palette(Octant::SouthWest, 255), Rgb { red: 0, green: 255, blue: 170 });
    assert_eq!(palette(Octant::West, 255), Rgb { red: 0, green: 170, blue: 255 });
    assert_eq!(palette(Octant::NorthWest, 255), Rgb { red: 63, green: 63, blue: 255 });
    assert_eq!(palette(Octant::West, 2), Rgb { red: 0, green: 0, blue: 2 });
    assert_eq!(palette(Octant::West, 5), Rgb { red: 0, green: 2, blue: 5 });
    assert_eq!(palette(Octant::North, 0), Rgb { red: 0, green: 0, blue: 0 });
}

#[test]
fn colour_is_black_without_convergence_or_octant() {
    let black = Rgb { red: 0, green: 0, blue: 0 };
    assert_eq!(colorize_rgb(Classification::Background), black);
    assert_eq!(colorize_rgb(Classification::Reached { count: 3, bucket: None }), black);
}

#[test]
fn colour_of_a_converged_run_is_its_octant_at_the_steps_left() {
    // With a budget of 255 the brightness is the number of steps left.
    let outcome = Classification::from_newton(255, 200, Sign::Positive, Sign::Zero);
    assert_eq!(colorize_rgb(outcome), Rgb { red: 200, green: 100, blue: 0 });
    let outcome = Classification::from_newton(255, 90, Sign::Negative, Sign::Negative);
    assert_eq!(colorize_rgb(outcome), Rgb { red: 0, green: 90, blue: 60 });
    let outcome = Classification::from_newton(255, 1, Sign::Zero, Sign::Positive);
    assert_eq!(colorize_rgb(outcome), Rgb { red: 1, green: 0, blue: 1 });
    // Past 255 steps a converged run is as dark as the background.
    let outcome = Classification::from_newton(1000, 10, Sign::Positive, Sign::Positive);
    assert_eq!(colorize_rgb(outcome), Rgb { red: 0, green: 0, blue: 0 });
}

#[test]
fn a_format_has_one_or_three_channels() {
    assert_eq!(SampleFormat::Gray.channels(), 1);
    assert_eq!(SampleFormat::Rgb.channels(), 3);
}
