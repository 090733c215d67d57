//! The size at which an image is shown.

use pg_bager::config::Config;
use pg_bager::scale::constrained_dimensions;

fn limits(max_pixels_w: Option<u32>, max_pixels_h: Option<u32>) -> Config {
    Config {
        max_row_bytes: 1024,
        max_pixels_w,
        max_pixels_h,
        disable: false,
        fallback: None,
    }
}

fn in_double_precision(width: u32, height: u32, config: &Config) -> (u32, u32) {
    let width_limit = config.max_pixels_w.unwrap_or(width).max(1);
    let height_limit = config.max_pixels_h.unwrap_or(height).max(1);
    let scale_w = width_limit as f64 / width.max(1) as f64;
    let scale_h = height_limit as f64 / height.max(1) as f64;
    let scale = scale_w.min(scale_h).min(1.0);
    (
        ((width as f64 * scale).round() as u32).max(1),
        ((height as f64 * scale).round() as u32).max(1),
    )
}

#[test]
fn scales_as_double_precision_does() {
    let sizes = [
        0,
        1,
        2,
        3,
        5,
        7,
        10,
        99,
        100,
        333,
        640,
        1023,
        4097,
        65_535,
        99_991,
        16_777_217,
        2_147_483_647,
        4_294_967_291,
        4_294_967_295,
    ];
    let mut bounds = vec![None];
    bounds.extend(sizes.iter().copied().map(Some));
    for width in sizes {
        for height in sizes {
            for max_w in &bounds {
                for max_h in &bounds {
                    let config = limits(*max_w, *max_h);
                    assert_eq!(
                        constrained_dimensions(width, height, &config),
                        in_double_precision(width, height, &config),
                        "{width}x{height} within {max_w:?}x{max_h:?}"
                    );
                }
            }
        }
    }
}

#[test]
fn scales_pseudo_random_sizes_as_double_precision_does() {
    let mut state: u64 = 0x9e37_79b9_7f4a_7c15;
    let mut next = || {
        state ^= state << 13;
        state ^= state >> 7;
        state ^= state << 17;
        let bits = (state >> 58) as u32 % 32;
        (state as u32) >> bits
    };
    for _ in 0..20_000 {
        let (width, height) = (next(), next());
        let config = limits(Some(next()), Some(next()));
        assert_eq!(
            constrained_dimensions(width, height, &config),
            in_double_precision(width, height, &config)
        );
    }
}

#[test]
fn keeps_the_shape_and_the_limits() {
    assert_eq!(constrained_dimensions(100, 50, &limits(None, None)), (100, 50));
    assert_eq!(constrained_dimensions(100, 50, &limits(Some(10), None)), (10, 5));
    assert_eq!(constrained_dimensions(100, 50, &limits(None, Some(10))), (20, 10));
    assert_eq!(constrained_dimensions(100, 50, &limits(Some(200), Some(200))), (100, 50));
    assert_eq!(constrained_dimensions(1000, 1, &limits(Some(10), None)), (10, 1));
    assert_eq!(constrained_dimensions(0, 0, &limits(Some(0), Some(0))), (1, 1));
}
