use fractal_render::bands::Band;
use fractal_render::classify::Classification;
use fractal_render::color::SampleFormat;
use fractal_render::raster::Dimensions;
use fractal_render::render::{blank_buffer, render_band};
use fractal_render::schedule::{schedule, Task};

#[test]
fn a_schedule_gives_each_band_its_slice() {
    let dims = Dimensions::new(7, 10).unwrap();
    assert_eq!(
        schedule(dims, SampleFormat::Rgb, 3),
        vec![
            Task {
                band: Band { top: 0, bottom: 4 },
                dims: Dimensions { width: 7, height: 4 },
                start: 0,
                end: 84,
            },
            Task {
                band: Band { top: 4, bottom: 8 },
                dims: Dimensions { width: 7, height: 4 },
                start: 84,
                end: 168,
            },
            Task {
                band: Band { top: 8, bottom: 10 },
                dims: Dimensions { width: 7, height: 2 },
                start: 168,
                end: 210,
            },
        ]
    );
}

#[test]
fn a_schedule_for_one_worker_is_one_task_for_the_whole_raster() {
    let dims = Dimensions::new(100, 200).unwrap();
    assert_eq!(
        schedule(dims, SampleFormat::Gray, 1),
        vec![Task { band: Band { top: 0, bottom: 200 }, dims, start: 0, end: 20_000 }]
    );
}

#[test]
fn the_slices_of_a_schedule_tile_the_buffer() {
    for format in [SampleFormat::Gray, SampleFormat::Rgb] {
        for height in 1..25usize {
            let dims = Dimensions::new(5, height).unwrap();
            for workers in 1..30usize {
                let tasks = schedule(dims, format, workers);
                assert!(!tasks.is_empty() && tasks.len() <= workers);
                let mut next = 0;
                for task in &tasks {
                    assert_eq!(task.start, next);
                    assert!(task.start < task.end);
                    assert_eq!(task.end - task.start, task.dims.len() * format.channels());
                    assert_eq!(task.dims, task.band.dimensions(dims));
                    next = task.end;
                }
                assert_eq!(next, 5 * height * format.channels());
            }
        }
    }
}

#[test]
fn rendering_task_by_task_gives_the_buffer_of_one_piece() {
    let outcome_at = |column: usize, row: usize| {
        if (column + row) % 4 == 0 {
            Classification::Background
        } else {
            Classification::from_escape(Some((7 * column + 13 * row) as u32))
        }
    };
    let dims = Dimensions::new(9, 17).unwrap();
    let mut whole = blank_buffer(dims, SampleFormat::Gray).unwrap();
    render_band(&mut whole, dims, SampleFormat::Gray, outcome_at);
    for workers in [1usize, 2, 3, 8, 16, 17, 40] {
        let mut buffer = blank_buffer(dims, SampleFormat::Gray).unwrap();
        // Last task first: the order in which the tasks run does not matter.
        for task in schedule(dims, SampleFormat::Gray, workers).iter().rev() {
            let top = task.band.top;
            render_band(
                &mut buffer[task.start..task.end],
                task.dims,
                SampleFormat::Gray,
                |column, row| outcome_at(column, row + top),
            );
        }
        assert_eq!(buffer, whole);
    }
}
