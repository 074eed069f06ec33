use pixelsort::frame::convert_to_2d_tuples;
use pixelsort::frame::sort_pixels_by_luminance;
use pixelsort::pixel::luminance_of;
use pixelsort::pixel::pixel_compare;
use pixelsort::pixel::sort_run;
use pixelsort::transform::transform_line_exec;

#[test]
fn brightness_comparison_orders_by_channel_sum() {
    assert_eq!(pixel_compare(&(10, 10, 10), &(5, 5, 5)), std::cmp::Ordering::Greater);
    assert_eq!(pixel_compare(&(5, 5, 5), &(10, 10, 10)), std::cmp::Ordering::Less);
    assert_eq!(pixel_compare(&(1, 2, 3), &(3, 2, 1)), std::cmp::Ordering::Equal);
    // Brightness is the raw sum, not the mean: (0, 0, 9) vs (2, 2, 2).
    assert_eq!(pixel_compare(&(0, 0, 9), &(2, 2, 2)), std::cmp::Ordering::Greater);
}

#[test]
fn luminance_is_truncated_mean() {
    assert_eq!(luminance_of(&(10, 20, 30)), 20);
    assert_eq!(luminance_of(&(0, 0, 0)), 0);
    assert_eq!(luminance_of(&(255, 255, 255)), 255);
    // (1 + 1 + 2) / 3 truncates to 1.
    assert_eq!(luminance_of(&(1, 1, 2)), 1);
}

#[test]
fn two_pixel_line_sorts_by_brightness() {
    // width=2, height=1, thresholds (0, 255), horizontal:
    // [(10,10,10), (5,5,5)] with brightness sums 30 and 15 swaps.
    let frame = vec![10, 10, 10, 5, 5, 5];
    let out = sort_pixels_by_luminance(frame, 2, 1, (0, 255), true);
    assert_eq!(out, vec![5, 5, 5, 10, 10, 10]);
}

#[test]
fn narrow_band_line_with_sorted_run_is_unchanged() {
    // Thresholds (200, 255) against luminances [50, 220, 230, 60]:
    // only positions 1-2 form a run and are sorted between themselves
    // (already in order here); positions 0 and 3 are untouched.
    let frame = vec![
        50, 50, 50, //
        220, 220, 220, //
        230, 230, 230, //
        60, 60, 60,
    ];
    let out = sort_pixels_by_luminance(frame.clone(), 4, 1, (200, 255), true);
    assert_eq!(out, frame);
}

#[test]
fn narrow_band_sorts_only_the_run() {
    // Thresholds (200, 255) against luminances [50, 220, 230, 60]:
    // only positions 1-2 form a run and are sorted between themselves;
    // positions 0 and 3 are untouched.
    let frame = vec![
        50, 50, 50, //
        230, 230, 230, //
        220, 220, 220, //
        60, 60, 60,
    ];
    let out = sort_pixels_by_luminance(frame, 4, 1, (200, 255), true);
    assert_eq!(
        out,
        vec![
            50, 50, 50, //
            220, 220, 220, //
            230, 230, 230, //
            60, 60, 60,
        ]
    );
}

#[test]
fn widest_band_sorts_whole_lines() {
    // With thresholds (0, 255) every scan line is one run and comes out
    // fully sorted ascending by channel sum.
    let frame = vec![
        9, 9, 9, //
        1, 1, 1, //
        5, 5, 5, //
        3, 3, 3,
    ];
    let out = sort_pixels_by_luminance(frame, 4, 1, (0, 255), true);
    assert_eq!(
        out,
        vec![
            1, 1, 1, //
            3, 3, 3, //
            5, 5, 5, //
            9, 9, 9,
        ]
    );
}

#[test]
fn vertical_orientation_sorts_columns() {
    // 2x2 frame, vertical orientation: each column is a scan line.
    // Column 0 holds (9,9,9), (3,3,3); column 1 holds (1,1,1), (7,7,7).
    let frame = vec![
        9, 9, 9, 1, 1, 1, //
        3, 3, 3, 7, 7, 7,
    ];
    let out = sort_pixels_by_luminance(frame, 2, 2, (0, 255), false);
    assert_eq!(
        out,
        vec![
            3, 3, 3, 1, 1, 1, //
            9, 9, 9, 7, 7, 7,
        ]
    );
}

#[test]
fn open_run_at_end_of_line_is_sorted() {
    // Thresholds (100, 255): a run closes at position 2, another opens
    // at position 3 and reaches the end of the line; it must be sorted
    // too, in both orientations.
    let frame = vec![
        200, 200, 200, //
        150, 150, 150, //
        10, 10, 10, //
        180, 180, 180, //
        120, 120, 120,
    ];
    let out = sort_pixels_by_luminance(frame, 5, 1, (100, 255), true);
    assert_eq!(
        out,
        vec![
            150, 150, 150, //
            200, 200, 200, //
            10, 10, 10, //
            120, 120, 120, //
            180, 180, 180,
        ]
    );
}

#[test]
fn transform_is_idempotent() {
    let frame = vec![
        200, 10, 30, 5, 250, 90, 17, 17, 17, 80, 80, 81, //
        1, 2, 3, 9, 8, 7, 100, 150, 200, 60, 60, 60,
    ];
    let once = sort_pixels_by_luminance(frame, 4, 2, (40, 200), true);
    let twice = sort_pixels_by_luminance(once.clone(), 4, 2, (40, 200), true);
    assert_eq!(twice, once);
}

#[test]
fn transform_is_a_permutation_of_the_input() {
    let frame = vec![
        12, 200, 9, 4, 4, 4, 250, 250, 250, 33, 99, 66, //
        7, 7, 7, 180, 2, 90, 55, 55, 55, 0, 0, 0,
    ];
    let out = sort_pixels_by_luminance(frame.clone(), 4, 2, (20, 230), true);
    let mut in_triples: Vec<(u8, u8, u8)> =
        frame.chunks(3).map(|c| (c[0], c[1], c[2])).collect();
    let mut out_triples: Vec<(u8, u8, u8)> =
        out.chunks(3).map(|c| (c[0], c[1], c[2])).collect();
    in_triples.sort();
    out_triples.sort();
    assert_eq!(in_triples, out_triples);
}

#[test]
fn out_of_band_pixels_keep_position_and_value() {
    let frame = vec![
        255, 255, 255, //
        90, 90, 90, //
        80, 80, 80, //
        0, 0, 0,
    ];
    let out = sort_pixels_by_luminance(frame.clone(), 4, 1, (50, 100), true);
    // The all-white and all-black pixels lie outside the band.
    assert_eq!(&out[0..3], &frame[0..3]);
    assert_eq!(&out[9..12], &frame[9..12]);
    // The two in-band pixels were sorted.
    assert_eq!(&out[3..6], &[80, 80, 80]);
    assert_eq!(&out[6..9], &[90, 90, 90]);
}

#[test]
fn stable_sort_keeps_equal_brightness_order() {
    // (3,2,1) and (1,2,3) share brightness 6; their original order must
    // survive the sort, while (0,0,0) moves to the front.
    let line = vec![(3, 2, 1), (1, 2, 3), (0, 0, 0)];
    let sorted = sort_run(line);
    assert_eq!(sorted, vec![(0, 0, 0), (3, 2, 1), (1, 2, 3)]);
}

#[test]
fn empty_frame_stays_empty() {
    let out = sort_pixels_by_luminance(Vec::new(), 0, 0, (0, 255), true);
    assert!(out.is_empty());
    let out = sort_pixels_by_luminance(Vec::new(), 3, 0, (0, 255), false);
    assert!(out.is_empty());
}

#[test]
fn inverted_thresholds_leave_the_frame_unchanged() {
    // With black above white no luminance is in band, so no run ever
    // opens and every pixel keeps its position and value.
    let frame = vec![9, 9, 9, 1, 1, 1, 5, 5, 5, 3, 3, 3];
    let out = sort_pixels_by_luminance(frame.clone(), 4, 1, (200, 100), true);
    assert_eq!(out, frame);
}

#[test]
fn line_transform_on_empty_line() {
    let out = transform_line_exec(Vec::new(), 0, 255);
    assert!(out.is_empty());
}

#[test]
fn convert_to_2d_tuples_is_column_major() {
    let input: Vec<u8> = (0u8..12).collect();
    let grid = convert_to_2d_tuples(input, 2, 2);
    assert_eq!(grid.len(), 2);
    assert_eq!(grid[0], vec![(0, 1, 2), (6, 7, 8)]);
    assert_eq!(grid[1], vec![(3, 4, 5), (9, 10, 11)]);
}
