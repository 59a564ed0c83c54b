use raytrace::dither::dither_sixteenths;
use raytrace::driver::{Control, Signal};
use raytrace::framebuffer::{frame_fits, pixel_offset, write_frame, write_pixel, write_row};
use raytrace::quantize::{level_count, level_to_channel, levels_to_rgb};

#[test]
fn it_works() {
    let mut buffer = vec![0u8; 6];
    write_pixel(&mut buffer, 6, 1, 0, (1, 2, 3));
    assert_eq!(buffer, vec![0, 0, 0, 1, 2, 3]);
}

#[test]
fn dither_matrix_entries() {
    let expected: [[u8; 4]; 4] = [[0, 8, 2, 10], [12, 4, 14, 6], [3, 11, 1, 9], [15, 7, 13, 5]];
    for y in 0..4u16 {
        for x in 0..4u16 {
            assert_eq!(dither_sixteenths(x, y), expected[y as usize][x as usize]);
        }
    }
}

#[test]
fn dither_repeats_every_four_pixels() {
    assert_eq!(dither_sixteenths(4, 4), 0);
    assert_eq!(dither_sixteenths(5, 6), 11);
    assert_eq!(dither_sixteenths(65535, 65535), 5);
    assert_eq!(dither_sixteenths(13, 0), 8);
}

#[test]
fn dither_tile_meets_every_threshold_once() {
    let mut seen = [0u32; 16];
    for j in 0..4u16 {
        for i in 0..4u16 {
            seen[dither_sixteenths(7 + i, 9 + j) as usize] += 1;
        }
    }
    assert_eq!(seen, [1u32; 16]);
}

#[test]
fn level_counts() {
    assert_eq!(level_count::<1>(), 1);
    assert_eq!(level_count::<2>(), 3);
    assert_eq!(level_count::<3>(), 7);
    assert_eq!(level_count::<8>(), 255);
}

#[test]
fn two_bit_levels_expand_evenly() {
    assert_eq!(level_to_channel::<2>(0), 0);
    assert_eq!(level_to_channel::<2>(1), 85);
    assert_eq!(level_to_channel::<2>(2), 170);
    assert_eq!(level_to_channel::<2>(3), 255);
}

#[test]
fn levels_outside_range_are_clamped() {
    assert_eq!(level_to_channel::<2>(-1), 0);
    assert_eq!(level_to_channel::<2>(4), 255);
    assert_eq!(level_to_channel::<2>(i64::MIN), 0);
    assert_eq!(level_to_channel::<2>(i64::MAX), 255);
}

#[test]
fn three_bit_levels_round_to_nearest() {
    assert_eq!(level_to_channel::<3>(1), 36);
    assert_eq!(level_to_channel::<3>(3), 109);
    assert_eq!(level_to_channel::<3>(4), 146);
    assert_eq!(level_to_channel::<3>(7), 255);
    assert_eq!(level_to_channel::<8>(128), 128);
    assert_eq!(level_to_channel::<1>(1), 255);
}

#[test]
fn black_and_white_survive_quantization() {
    assert_eq!(levels_to_rgb::<2>((0, 0, 0)), (0, 0, 0));
    assert_eq!(levels_to_rgb::<2>((3, 3, 3)), (255, 255, 255));
    assert_eq!(levels_to_rgb::<4>((15, 15, 15)), (255, 255, 255));
}

#[test]
fn channels_keep_their_order() {
    assert_eq!(levels_to_rgb::<2>((3, 0, 1)), (255, 0, 85));
}

#[test]
fn channel_value_never_decreases_with_level() {
    let mut last = 0u8;
    for level in -3i64..12 {
        let v = level_to_channel::<3>(level);
        assert!(v >= last);
        last = v;
    }
    assert_eq!(last, 255);
}

#[test]
fn pixel_offsets() {
    assert_eq!(pixel_offset(0, 0, 1920), 0);
    assert_eq!(pixel_offset(2, 3, 100), 306);
    assert_eq!(pixel_offset(639, 479, 1920), 479 * 1920 + 639 * 3);
}

#[test]
fn write_pixel_touches_three_bytes() {
    let mut buffer = vec![7u8; 24];
    write_pixel(&mut buffer, 8, 1, 2, (10, 20, 30));
    let mut expected = vec![7u8; 24];
    expected[19] = 10;
    expected[20] = 20;
    expected[21] = 30;
    assert_eq!(buffer, expected);
}

#[test]
fn write_row_keeps_padding() {
    let mut row = vec![0xEEu8; 8];
    write_row(&mut row, &[(1, 2, 3), (4, 5, 6)]);
    assert_eq!(row, vec![1, 2, 3, 4, 5, 6, 0xEE, 0xEE]);
}

#[test]
fn write_row_with_no_pixels_changes_nothing() {
    let mut row = vec![9u8; 4];
    write_row(&mut row, &[]);
    assert_eq!(row, vec![9u8; 4]);
}

#[test]
fn write_frame_lays_out_rows_by_stride() {
    let mut buffer = vec![0xEEu8; 20];
    let colors = [(1, 2, 3), (4, 5, 6), (7, 8, 9), (10, 11, 12)];
    write_frame(&mut buffer, 8, 2, 2, &colors);
    assert_eq!(
        buffer,
        vec![
            1, 2, 3, 4, 5, 6, 0xEE, 0xEE, 7, 8, 9, 10, 11, 12, 0xEE, 0xEE, 0xEE, 0xEE, 0xEE,
            0xEE
        ]
    );
}

#[test]
fn write_frame_of_empty_image_changes_nothing() {
    let mut buffer = vec![3u8; 10];
    write_frame(&mut buffer, 5, 0, 2, &[]);
    assert_eq!(buffer, vec![3u8; 10]);
}

#[test]
fn rows_written_apart_match_whole_frame() {
    let width: u16 = 5;
    let height: u16 = 4;
    let stride: usize = 17;
    let colors: Vec<(u8, u8, u8)> = (0..(width as usize * height as usize))
        .map(|p| (p as u8, (p * 7) as u8, (p * 13) as u8))
        .collect();
    let initial: Vec<u8> = (0..(stride * height as usize + 3)).map(|i| (i * 31) as u8).collect();
    let mut whole = initial.clone();
    write_frame(&mut whole, stride, width, height, &colors);
    let mut by_rows = initial.clone();
    for (y, scanline) in by_rows.chunks_mut(stride).take(height as usize).enumerate() {
        let start = y * width as usize;
        write_row(scanline, &colors[start..start + width as usize]);
    }
    assert_eq!(whole, by_rows);
}

#[test]
fn frame_fits_checks_stride_and_length() {
    assert!(frame_fits(640 * 480 * 3, 640 * 3, 640, 480));
    assert!(!frame_fits(640 * 480 * 3 - 1, 640 * 3, 640, 480));
    assert!(!frame_fits(usize::MAX, 640 * 3 - 1, 640, 480));
    assert!(!frame_fits(100, usize::MAX, 1, 2));
    assert!(frame_fits(0, 0, 0, 0));
}

#[test]
fn quit_ends_the_loop_for_good() {
    let c = Control::new();
    assert!(c.renders());
    let c = c.on_signal(Signal::Quit);
    assert!(c.quit);
    assert!(!c.renders());
    let c = c.on_signal(Signal::TogglePause);
    assert!(c.quit);
    assert!(!c.paused);
}

#[test]
fn space_pauses_and_resumes() {
    let c = Control::new().on_signal(Signal::TogglePause);
    assert!(c.paused);
    assert!(!c.renders());
    let c = c.on_signal(Signal::Other);
    assert!(c.paused);
    let c = c.on_signal(Signal::TogglePause);
    assert!(!c.paused);
    assert!(c.renders());
    assert_eq!(c, Control::new());
}

#[test]
fn every_level_has_its_own_byte() {
    let levels = level_count::<3>() as i64;
    let bytes: Vec<u8> = (0..=levels).map(level_to_channel::<3>).collect();
    assert_eq!(bytes, vec![0, 36, 73, 109, 146, 182, 219, 255]);
}

#[test]
fn dithered_tile_spans_two_levels() {
    // A flat scaled value of 1.25 steps, in sixteenths: 20 / 16.
    let mut seen = Vec::new();
    for j in 0..4u16 {
        for i in 0..4u16 {
            let k = dither_sixteenths(i, j) as i64;
            let level = (20 + k) / 16;
            if !seen.contains(&level) {
                seen.push(level);
            }
        }
    }
    seen.sort();
    assert_eq!(seen, vec![1, 2]);
    let low = level_to_channel::<2>(1);
    let high = level_to_channel::<2>(2);
    assert_eq!((low, high), (85, 170));
}

#[test]
fn white_and_black_colors_quantize_to_extremes() {
    let levels = level_count::<2>() as f32;
    let white = (1.0f32 * levels).round() as i64;
    let black = (0.0f32 * levels).round() as i64;
    assert_eq!(levels_to_rgb::<2>((white, white, white)), (255, 255, 255));
    assert_eq!(levels_to_rgb::<2>((black, black, black)), (0, 0, 0));
}
