//! Image numbers.

use pg_bager::image_id::{clock_nanos, distinct_image_id, mixed_image_id, ImageIds};

#[test]
fn mixes_time_process_and_counter() {
    assert_eq!(mixed_image_id(0, 0, 0), 0x4000_0000);
    assert_eq!(mixed_image_id(5, 0, 0), 0x4000_0005);
    assert_eq!(mixed_image_id(1 << 32, 0, 0), 0x4000_0080);
    assert_eq!(mixed_image_id(0, 1, 0), 0x4000_2000);
    assert_eq!(mixed_image_id(0, 0, 1), 0x4080_0000);
    assert_eq!(mixed_image_id(0xffff_ffff, 0, 0), 0x7fff_ffff);
    for (nanos, pid, counter) in [(1_234_567_890_123_456_789u64, 4711u32, 3u32), (u64::MAX, 1, 2)] {
        let mixed = (nanos as u32)
            ^ ((nanos >> 32) as u32).rotate_left(7)
            ^ pid.rotate_left(13)
            ^ counter.rotate_left(23);
        assert_eq!(
            mixed_image_id(nanos, pid, counter),
            (mixed & 0x3fff_ffff) | 0x4000_0000
        );
    }
}

#[test]
fn successive_numbers_of_one_moment_differ() {
    for counter in [0, 1, 2, 0x1ff, 0x7fff_ffff, u32::MAX] {
        assert_ne!(
            mixed_image_id(77, 4711, counter),
            mixed_image_id(77, 4711, counter.wrapping_add(1))
        );
    }
}

#[test]
fn drawn_numbers_are_large_and_change() {
    let mut ids = ImageIds::new(4711);
    let mut last = 0;
    for _ in 0..1000 {
        let id = ids.next_kitty_image_id();
        assert!((0x4000_0000..=0x7fff_ffff).contains(&id));
        assert_ne!(id, last);
        last = id;
    }
}

#[test]
fn a_number_that_would_repeat_is_stepped_over() {
    let first = mixed_image_id(0, 4711, 1);
    let second = mixed_image_id(0x180_0000, 4711, 2);
    assert_eq!(first, second);
    assert_eq!(distinct_image_id(first, None), first);
    assert_eq!(distinct_image_id(second, Some(first)), first ^ 1);
    assert_eq!(distinct_image_id(second, Some(first ^ 1)), second);
}

#[test]
fn keeps_the_low_bits_of_the_clock() {
    assert_eq!(clock_nanos(None), 0);
    assert_eq!(clock_nanos(Some(12)), 12);
    assert_eq!(clock_nanos(Some((7 << 64) + 12)), 12);
}
