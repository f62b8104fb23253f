use fractal_render::raster::Dimensions;

#[test]
fn dimensions_need_two_positive_sides() {
    assert_eq!(Dimensions::new(0, 5), None);
    assert_eq!(Dimensions::new(5, 0), None);
    assert_eq!(Dimensions::new(0, 0), None);
    assert_eq!(Dimensions::new(100, 200), Some(Dimensions { width: 100, height: 200 }));
    assert_eq!(Dimensions::new(1, 1), Some(Dimensions { width: 1, height: 1 }));
}

#[test]
fn dimensions_whose_pixel_count_overflows_are_refused() {
    assert_eq!(Dimensions::new(usize::MAX, 2), None);
    assert_eq!(Dimensions::new(2, usize::MAX), None);
    assert_eq!(
        Dimensions::new(usize::MAX, 1),
        Some(Dimensions { width: usize::MAX, height: 1 })
    );
}

#[test]
fn pixel_count_is_the_product_of_the_sides() {
    let dims = Dimensions::new(100, 200).unwrap();
    assert_eq!(dims.len(), 20_000);
    assert_eq!(Dimensions::new(7, 1).unwrap().len(), 7);
}

#[test]
fn offsets_run_row_by_row() {
    let dims = Dimensions::new(100, 200).unwrap();
    assert_eq!(dims.offset(0, 0), 0);
    assert_eq!(dims.offset(99, 0), 99);
    assert_eq!(dims.offset(0, 1), 100);
    assert_eq!(dims.offset(25, 175), 17_525);
    assert_eq!(dims.offset(99, 199), 19_999);
}

#[test]
fn coordinates_undo_offsets() {
    let dims = Dimensions::new(7, 5).unwrap();
    assert_eq!(dims.coordinates(0), (0, 0));
    assert_eq!(dims.coordinates(6), (6, 0));
    assert_eq!(dims.coordinates(7), (0, 1));
    assert_eq!(dims.coordinates(34), (6, 4));
    for row in 0..5 {
        for column in 0..7 {
            let index = dims.offset(column, row);
            assert_eq!(dims.coordinates(index), (column, row));
        }
    }
    for index in 0..dims.len() {
        let (column, row) = dims.coordinates(index);
        assert!(column < 7 && row < 5);
        assert_eq!(dims.offset(column, row), index);
    }
}
