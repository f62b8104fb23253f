use fractal_render::bands::{band_height, band_of_row, check_partition, split_rows, Band};
use fractal_render::raster::Dimensions;

#[test]
fn band_height_rounds_the_quotient_up() {
    assert_eq!(band_height(10, 3), 4);
    assert_eq!(band_height(10, 8), 2);
    assert_eq!(band_height(8, 8), 1);
    assert_eq!(band_height(9, 8), 2);
    assert_eq!(band_height(1, 8), 1);
    assert_eq!(band_height(1080, 8), 135);
    assert_eq!(band_height(1081, 8), 136);
    assert_eq!(band_height(200, 1), 200);
    assert_eq!(band_height(usize::MAX, 1), usize::MAX);
    assert_eq!(band_height(usize::MAX, 2), usize::MAX / 2 + 1);
}

#[test]
fn rows_are_split_into_bands_of_equal_height_and_a_shorter_last() {
    assert_eq!(
        split_rows(10, 3),
        vec![
            Band { top: 0, bottom: 4 },
            Band { top: 4, bottom: 8 },
            Band { top: 8, bottom: 10 },
        ]
    );
    assert_eq!(split_rows(200, 1), vec![Band { top: 0, bottom: 200 }]);
    assert_eq!(split_rows(1, 8), vec![Band { top: 0, bottom: 1 }]);
}

#[test]
fn a_split_may_need_fewer_bands_than_workers() {
    let bands = split_rows(10, 8);
    assert_eq!(
        bands,
        vec![
            Band { top: 0, bottom: 2 },
            Band { top: 2, bottom: 4 },
            Band { top: 4, bottom: 6 },
            Band { top: 6, bottom: 8 },
            Band { top: 8, bottom: 10 },
        ]
    );
    assert_eq!(split_rows(8, 8).len(), 8);
    assert_eq!(split_rows(3, 100).len(), 3);
}

#[test]
fn a_split_near_the_largest_height_does_not_overflow() {
    let bands = split_rows(usize::MAX, 2);
    let half = usize::MAX / 2 + 1;
    assert_eq!(
        bands,
        vec![Band { top: 0, bottom: half }, Band { top: half, bottom: usize::MAX }]
    );
}

#[test]
fn every_split_is_a_partition() {
    for height in 1..40usize {
        for workers in 1..45usize {
            let bands = split_rows(height, workers);
            assert!(check_partition(&bands, height));
            assert!(!bands.is_empty() && bands.len() <= workers);
            let mut seen = vec![0u32; height];
            for band in &bands {
                for row in band.top..band.bottom {
                    seen[row] += 1;
                }
            }
            assert!(seen.iter().all(|&times| times == 1));
        }
    }
}

#[test]
fn band_of_row_finds_the_band_that_holds_the_row() {
    assert_eq!(band_of_row(10, 3, 0), 0);
    assert_eq!(band_of_row(10, 3, 3), 0);
    assert_eq!(band_of_row(10, 3, 4), 1);
    assert_eq!(band_of_row(10, 3, 9), 2);
    for height in 1..30usize {
        for workers in 1..12usize {
            let bands = split_rows(height, workers);
            for row in 0..height {
                let index = band_of_row(height, workers, row);
                assert!(bands[index].contains_row(row));
            }
        }
    }
}

#[test]
fn check_partition_refuses_what_is_no_partition() {
    let empty: Vec<Band> = Vec::new();
    assert!(!check_partition(&empty, 10));
    assert!(check_partition(&vec![Band { top: 0, bottom: 10 }], 10));
    // does not start at the top
    assert!(!check_partition(&vec![Band { top: 1, bottom: 10 }], 10));
    // does not reach the last row
    assert!(!check_partition(&vec![Band { top: 0, bottom: 9 }], 10));
    // a gap
    assert!(!check_partition(
        &vec![Band { top: 0, bottom: 4 }, Band { top: 5, bottom: 10 }],
        10
    ));
    // an overlap
    assert!(!check_partition(
        &vec![Band { top: 0, bottom: 6 }, Band { top: 5, bottom: 10 }],
        10
    ));
    // an empty band
    assert!(!check_partition(
        &vec![Band { top: 0, bottom: 5 }, Band { top: 5, bottom: 5 }, Band { top: 5, bottom: 10 }],
        10
    ));
    // out of order
    assert!(!check_partition(
        &vec![Band { top: 5, bottom: 10 }, Band { top: 0, bottom: 5 }],
        10
    ));
    // uneven bands are a partition all the same
    assert!(check_partition(
        &vec![Band { top: 0, bottom: 1 }, Band { top: 1, bottom: 7 }, Band { top: 7, bottom: 10 }],
        10
    ));
}

#[test]
fn a_band_knows_its_rows_and_its_own_raster() {
    let dims = Dimensions::new(100, 10).unwrap();
    let band = Band { top: 4, bottom: 8 };
    assert_eq!(band.rows(), 4);
    assert!(band.contains_row(4));
    assert!(band.contains_row(7));
    assert!(!band.contains_row(3));
    assert!(!band.contains_row(8));
    assert_eq!(band.dimensions(dims), Dimensions { width: 100, height: 4 });
    assert_eq!(band.corners(dims), ((0, 4), (100, 8)));
}

#[test]
fn sample_ranges_of_a_split_tile_the_buffer() {
    let dims = Dimensions::new(7, 10).unwrap();
    let band = Band { top: 4, bottom: 8 };
    assert_eq!(band.sample_range(dims, 7), (28, 56));
    assert_eq!(band.sample_range(dims, 21), (84, 168));
    for workers in 1..12usize {
        let mut expected_start = 0;
        for band in split_rows(10, workers) {
            let (start, end) = band.sample_range(dims, 21);
            assert_eq!(start, expected_start);
            assert_eq!(end - start, band.rows() * 21);
            expected_start = end;
        }
        assert_eq!(expected_start, 210);
    }
}
