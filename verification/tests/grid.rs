use mandelbrot::grid::{band, pixel_count, pixel_index, Band};

#[test]
fn pixel_count_is_width_times_height() {
    assert_eq!(pixel_count((100, 200)), Some(20000));
    assert_eq!(pixel_count((1, 1)), Some(1));
    assert_eq!(pixel_count((4000, 3000)), Some(12_000_000));
}

#[test]
fn pixel_count_of_an_empty_grid_is_zero() {
    assert_eq!(pixel_count((0, 5)), Some(0));
    assert_eq!(pixel_count((5, 0)), Some(0));
    assert_eq!(pixel_count((0, usize::MAX)), Some(0));
}

#[test]
fn pixel_count_that_does_not_fit_is_none() {
    assert_eq!(pixel_count((usize::MAX, 2)), None);
    assert_eq!(pixel_count((usize::MAX, usize::MAX)), None);
    assert_eq!(pixel_count((usize::MAX, 1)), Some(usize::MAX));
}

#[test]
fn pixel_index_is_row_major() {
    assert_eq!(pixel_index((100, 200), (25, 175)), 17525);
    assert_eq!(pixel_index((100, 200), (0, 0)), 0);
    assert_eq!(pixel_index((100, 200), (99, 0)), 99);
    assert_eq!(pixel_index((100, 200), (0, 1)), 100);
    assert_eq!(pixel_index((100, 200), (99, 199)), 19999);
    assert_eq!(pixel_index((1, 1), (0, 0)), 0);
}

#[test]
fn band_is_one_row() {
    assert_eq!(
        band((4, 3), 1),
        Band {
            top: 1,
            bounds: (4, 1),
            start: 4,
            end: 8,
            upper_left: (0, 1),
            lower_right: (4, 2),
        }
    );
    assert_eq!(
        band((1, 1), 0),
        Band {
            top: 0,
            bounds: (1, 1),
            start: 0,
            end: 1,
            upper_left: (0, 0),
            lower_right: (1, 1),
        }
    );
}

#[test]
fn bands_cover_the_buffer_once() {
    let bounds = (5, 7);
    let count = pixel_count(bounds).unwrap();
    let mut seen = vec![0u32; count];
    for row in 0..bounds.1 {
        let b = band(bounds, row);
        assert!(b.start <= b.end && b.end <= count);
        for k in b.start..b.end {
            seen[k] += 1;
        }
    }
    assert_eq!(seen, vec![1u32; count]);
}

#[test]
fn bands_follow_one_another() {
    let bounds = (3, 4);
    let mut next = 0;
    for row in 0..bounds.1 {
        let b = band(bounds, row);
        assert_eq!(b.start, next);
        assert_eq!(b.end - b.start, 3);
        assert_eq!(b.start, pixel_index(bounds, (0, row)));
        next = b.end;
    }
    assert_eq!(Some(next), pixel_count(bounds));
}
