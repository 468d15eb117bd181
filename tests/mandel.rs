use mandel::{
    ascii_art, checksum, escape_time, from_rows, mandelbrot, render_png, scale, scaled_pixels,
    shade_of, within_bound, Dimensions, DimensionsError, Grid, NumberError, RenderError,
};
use num::Complex;

type C = Complex<f64>;

fn escapes(bound: u32, c: C) -> Option<u32> {
    escape_time(
        bound,
        C::new(0.0, 0.0),
        |z: C| z.norm_sqr() > 4.0,
        move |z: C| z * z + c,
    )
}

fn plane_grid(bound: u32, (width, height): (usize, usize), (xs, ys): ((f64, f64), (f64, f64))) -> Grid {
    let x_step = (xs.1 - xs.0) / width as f64;
    let y_step = (ys.1 - ys.0) / height as f64;
    mandelbrot(bound, width, height, move |i: usize, j: usize| {
        escapes(bound, C::new(xs.0 + i as f64 * x_step, ys.0 + j as f64 * y_step))
    })
}

fn cells(g: &Grid) -> Vec<Vec<u64>> {
    (0..g.height()).map(|j| (0..g.width()).map(|i| g.get(j, i)).collect()).collect()
}

#[test]
fn test_escapes() {
    let zero = C::new(0.0, 0.0);
    assert!(matches!(escapes(10, zero), None));
    let two = C::new(2.0, 2.0);
    assert!(matches!(escapes(10, two), Some(_)));
}

#[test]
fn origin_never_escapes() {
    for bound in [1u32, 2, 10, 255, 1000, 100_000] {
        assert_eq!(escapes(bound, C::new(0.0, 0.0)), None);
    }
}

#[test]
fn far_point_escapes_after_one_step() {
    // The orbit starts at the origin, which is inside; the next point is c.
    for bound in [2u32, 10, 255, 70_000] {
        assert_eq!(escapes(bound, C::new(2.0, 2.0)), Some(1));
    }
    assert_eq!(escapes(1, C::new(2.0, 2.0)), None);
}

#[test]
fn zero_bound_never_escapes() {
    for c in [C::new(0.0, 0.0), C::new(2.0, 2.0), C::new(-100.0, 3.5)] {
        assert_eq!(escapes(0, c), None);
    }
}

#[test]
fn escape_index_counts_steps() {
    // 0 -> 1 -> 2 -> 5: only 5 lies outside the radius, at step 3.
    assert_eq!(escapes(10, C::new(1.0, 0.0)), Some(3));
    assert_eq!(escapes(3, C::new(1.0, 0.0)), None);
    assert_eq!(escapes(4, C::new(1.0, 0.0)), Some(3));
    // -2 stays on the circle of radius 2, which is not outside.
    assert_eq!(escapes(50, C::new(-2.0, 0.0)), None);
}

#[test]
fn bound_above_sixteen_bits() {
    let bound: u32 = 70_000;
    let g = plane_grid(bound, (2, 1), ((-1.0, 1.0), (0.0, 0.0)));
    assert_eq!(g.get(0, 0), 70_001);
}

#[test]
fn grid_is_deterministic() {
    let a = plane_grid(64, (40, 30), ((-2.0, 1.0), (-1.0, 1.0)));
    let b = plane_grid(64, (40, 30), ((-2.0, 1.0), (-1.0, 1.0)));
    assert_eq!(cells(&a), cells(&b));
}

#[test]
fn grid_has_requested_shape() {
    for (w, h) in [(1usize, 1usize), (7, 3), (3, 7), (80, 20)] {
        let g = plane_grid(20, (w, h), ((-2.0, 1.0), (-1.0, 1.0)));
        assert_eq!(g.height(), h);
        assert_eq!(g.width(), w);
        let c = cells(&g);
        assert_eq!(c.len(), h);
        assert!(c.iter().all(|row| row.len() == w));
    }
}

#[test]
fn degenerate_sizes_give_empty_grids() {
    let g = plane_grid(20, (0, 5), ((-2.0, 1.0), (-1.0, 1.0)));
    assert_eq!((g.height(), g.width()), (5, 0));
    assert!(scaled_pixels(&g, 20).is_empty());
    let g = plane_grid(20, (5, 0), ((-2.0, 1.0), (-1.0, 1.0)));
    assert_eq!((g.height(), g.width()), (0, 5));
    assert!(scaled_pixels(&g, 20).is_empty());
}

#[test]
fn cells_stay_within_sentinel() {
    let bound: u32 = 30;
    let g = plane_grid(bound, (50, 40), ((-2.5, 1.0), (-1.2, 1.2)));
    assert!(within_bound(&g, bound));
    let c = cells(&g);
    assert!(c.iter().flatten().all(|&v| v <= bound as u64 + 1));
    assert!(c.iter().flatten().any(|&v| v == bound as u64 + 1));
    assert!(c.iter().flatten().any(|&v| v < bound as u64 + 1));
}

#[test]
fn square_grid_is_symmetric_about_real_axis() {
    let g = plane_grid(255, (100, 100), ((-1.0, 1.0), (-1.0, 1.0)));
    let c = cells(&g);
    for j in 1..100 {
        assert_eq!(c[j], c[100 - j], "row {}", j);
    }
}

#[test]
fn real_axis_row() {
    let g = plane_grid(10, (3, 1), ((-2.0, 1.0), (0.0, 0.0)));
    assert_eq!(cells(&g), vec![vec![11, 11, 11]]);
}

#[test]
fn row_follows_pixel_function() {
    let g = mandelbrot(5, 3, 2, |i: usize, j: usize| if i == j { Some(i as u32) } else { None });
    assert_eq!(cells(&g), vec![vec![0, 6, 6], vec![6, 1, 6]]);
}

#[test]
fn grid_from_rows() {
    let g = from_rows(2, vec![vec![1, 2], vec![3, 4], vec![5, 6]]);
    assert_eq!((g.height(), g.width()), (3, 2));
    assert_eq!(cells(&g), vec![vec![1, 2], vec![3, 4], vec![5, 6]]);
}

#[test]
fn scale_maps_onto_sixteen_bits() {
    assert_eq!(scale(0, 10), 0);
    assert_eq!(scale(11, 10), 65535);
    assert_eq!(scale(5, 10), 29788);
    assert_eq!(scale(1, 0), 65535);
    assert_eq!(scale(4_294_967_296, u32::MAX), 65535);
    assert_eq!(scale(1, u32::MAX), 0);
}

#[test]
fn shades_by_threshold() {
    assert_eq!(shade_of(0), b' ');
    assert_eq!(shade_of(6553), b' ');
    assert_eq!(shade_of(6554), b'.');
    assert_eq!(shade_of(32766), b'.');
    assert_eq!(shade_of(32767), b'*');
    assert_eq!(shade_of(65535), b'*');
}

#[test]
fn checksum_wraps() {
    let g = from_rows(2, vec![vec![0, 11], vec![11, 5]]);
    assert_eq!(scaled_pixels(&g, 10), vec![0, 65535, 65535, 29788]);
    assert_eq!(checksum(&g, 10), 29786);
    let empty = from_rows(4, vec![]);
    assert_eq!(checksum(&empty, 10), 0);
}

#[test]
fn ascii_art_lines() {
    let g = from_rows(2, vec![vec![0, 11], vec![11, 5]]);
    assert_eq!(ascii_art(&g, 10), b" *\n*.\n".to_vec());
    let g = from_rows(0, vec![vec![], vec![]]);
    assert_eq!(ascii_art(&g, 10), b"\n\n".to_vec());
}

#[test]
fn within_bound_finds_stray_cell() {
    let g = from_rows(2, vec![vec![0, 11], vec![12, 5]]);
    assert!(!within_bound(&g, 10));
    assert!(within_bound(&g, 11));
}

#[test]
fn png_render() {
    let g = from_rows(3, vec![vec![0, 5, 11], vec![11, 11, 2]]);
    let bytes = render_png(&g, 10).unwrap();
    assert_eq!(&bytes[..8], &[137u8, 80, 78, 71, 13, 10, 26, 10]);
    // IHDR: width 3, height 2, 16-bit grayscale.
    assert_eq!(&bytes[12..16], b"IHDR");
    assert_eq!(&bytes[16..24], &[0u8, 0, 0, 3, 0, 0, 0, 2]);
    assert_eq!(bytes[24], 16);
    assert_eq!(bytes[25], 0);
}

#[test]
fn png_render_errors() {
    let wide = from_rows(1usize << 32, vec![]);
    assert_eq!(render_png(&wide, 10), Err(RenderError::TooLarge));
    let empty = from_rows(0, vec![vec![], vec![]]);
    assert_eq!(render_png(&empty, 10), Err(RenderError::Encode));
}

#[test]
fn dimensions_parse() {
    assert_eq!(Dimensions::from_str("80x20"), Ok(Dimensions { width: 80, height: 20 }));
    assert_eq!(Dimensions::from_str("+5x007"), Ok(Dimensions { width: 5, height: 7 }));
    assert_eq!(Dimensions::from_str("0x0"), Ok(Dimensions { width: 0, height: 0 }));
}

#[test]
fn dimensions_errors() {
    assert_eq!(Dimensions::from_str("80"), Err(DimensionsError::Format));
    assert_eq!(Dimensions::from_str("1x2x3"), Err(DimensionsError::Format));
    assert_eq!(Dimensions::from_str(""), Err(DimensionsError::Format));
    assert_eq!(Dimensions::from_str("axb"), Err(DimensionsError::Width(NumberError::InvalidDigit)));
    assert_eq!(Dimensions::from_str("x5"), Err(DimensionsError::Width(NumberError::Empty)));
    assert_eq!(Dimensions::from_str("x20"), Err(DimensionsError::Width(NumberError::Empty)));
    assert_eq!(Dimensions::from_str("80x"), Err(DimensionsError::Height(NumberError::Empty)));
    assert_eq!(Dimensions::from_str("80xabc"), Err(DimensionsError::Height(NumberError::InvalidDigit)));
    assert_eq!(Dimensions::from_str("5x+"), Err(DimensionsError::Height(NumberError::InvalidDigit)));
    assert_eq!(Dimensions::from_str("-5x5"), Err(DimensionsError::Width(NumberError::InvalidDigit)));
    assert_eq!(
        Dimensions::from_str("99999999999999999999999x1"),
        Err(DimensionsError::Width(NumberError::Overflow))
    );
    assert_eq!(
        Dimensions::from_str("99999999999999999999999ax1"),
        Err(DimensionsError::Width(NumberError::Overflow))
    );
    assert_eq!(
        Dimensions::from_str("12ax99999999999999999999999"),
        Err(DimensionsError::Width(NumberError::InvalidDigit))
    );
    assert_eq!(
        Dimensions::from_str("1x18446744073709551616"),
        Err(DimensionsError::Height(NumberError::Overflow))
    );
    assert_eq!(
        Dimensions::from_str("1x18446744073709551615"),
        Ok(Dimensions { width: 1, height: 18446744073709551615 })
    );
}

#[test]
fn dimensions_errors_agree_with_std_parse() {
    for side in ["", "+", "-1", "12a", "007", "+42", "18446744073709551616", "99999999999999999999a"] {
        let std_kind = side.parse::<usize>().err().map(|e| e.kind().clone());
        let ours = match Dimensions::from_str(&format!("{}x1", side)) {
            Ok(_) => None,
            Err(DimensionsError::Width(e)) => Some(e),
            Err(other) => panic!("unexpected {:?}", other),
        };
        let expected = std_kind.map(|k| match k {
            std::num::IntErrorKind::Empty => NumberError::Empty,
            std::num::IntErrorKind::InvalidDigit => NumberError::InvalidDigit,
            std::num::IntErrorKind::PosOverflow => NumberError::Overflow,
            other => panic!("unexpected {:?}", other),
        });
        assert_eq!(ours, expected, "side {:?}", side);
    }
}

#[test]
fn png_render_succeeds_on_nonzero_sides() {
    for (w, h) in [(1usize, 1usize), (5, 1), (1, 5), (17, 9)] {
        let rows: Vec<Vec<u64>> = (0..h).map(|j| (0..w).map(|i| ((i + j) % 12) as u64).collect()).collect();
        let g = from_rows(w, rows);
        assert!(render_png(&g, 10).is_ok(), "{}x{}", w, h);
    }
    let tall = from_rows(0, vec![vec![]; 3]);
    assert_eq!(render_png(&tall, 10), Err(RenderError::Encode));
    let flat = from_rows(3, vec![]);
    assert_eq!(render_png(&flat, 10), Err(RenderError::Encode));
}
