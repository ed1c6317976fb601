use screenforge::blur::{box_blur, box_blur_horizontal, box_blur_vertical};
use screenforge::double::Double;

fn num(v: f64) -> Double {
    Double::from_bits(v.to_bits())
}

fn single_pixel_buffer(size: i32) -> Vec<u8> {
    let mut data = vec![0u8; (size * size * 4) as usize];
    let center = size / 2;
    let idx = (center * size * 4 + center * 4) as usize;
    data[idx..idx + 4].copy_from_slice(&[255, 255, 255, 255]);
    data
}

#[test]
fn zero_radius_is_a_no_op() {
    let mut data = single_pixel_buffer(21);
    let before = data.clone();
    box_blur(&mut data, 21, 21, 21 * 4, num(0.0));
    assert_eq!(data, before);
}

#[test]
fn blur_spreads_a_single_pixel_to_its_neighbors() {
    let size = 21;
    let mut data = single_pixel_buffer(size);
    box_blur(&mut data, size, size, size * 4, num(3.0));

    let center = size / 2;
    let at = |x: i32, y: i32| -> u8 { data[(y * size * 4 + x * 4 + 3) as usize] };

    assert!(at(center, center) > 0);
    assert!(at(center, center) < 255);
    assert!(at(center + 1, center) > 0);
    assert_eq!(at(0, 0), 0);
}

fn filled_block_buffer(size: i32, block: i32) -> Vec<u8> {
    let mut data = vec![0u8; (size * size * 4) as usize];
    let start = (size - block) / 2;
    for y in start..start + block {
        for x in start..start + block {
            let idx = (y * size * 4 + x * 4) as usize;
            data[idx..idx + 4].copy_from_slice(&[255, 255, 255, 255]);
        }
    }
    data
}

#[test]
fn blur_preserves_total_energy_approximately_for_a_filled_shape() {
    let size = 61;
    let mut data = filled_block_buffer(size, 15);
    let total_before: u64 = data.iter().map(|&b| b as u64).sum();

    box_blur(&mut data, size, size, size * 4, num(4.0));
    let total_after: u64 = data.iter().map(|&b| b as u64).sum();

    let diff = total_before.abs_diff(total_after);
    assert!(diff < total_before / 20, "expected near-conservation: before={total_before} after={total_after}");
}

#[test]
fn a_row_is_averaged_over_the_window_with_its_ends_repeated() {
    // One row of four pixels; each channel is averaged on its own.
    let mut data: Vec<u8> = vec![0, 10, 0, 0, 30, 10, 0, 0, 60, 10, 0, 0, 90, 10, 0, 0];
    box_blur_horizontal(&mut data, 4, 1, 16, 1);
    assert_eq!(data, vec![10, 10, 0, 0, 30, 10, 0, 0, 60, 10, 0, 0, 80, 10, 0, 0]);
}

#[test]
fn a_column_is_averaged_and_padding_is_left_alone() {
    // Three rows of one pixel, with four bytes of padding behind each.
    let mut data: Vec<u8> = vec![0, 0, 0, 0, 1, 2, 3, 4, 30, 0, 0, 0, 5, 6, 7, 8, 90, 0, 0, 0, 9, 9, 9, 9];
    box_blur_vertical(&mut data, 1, 3, 8, 1);
    assert_eq!(data, vec![10, 0, 0, 0, 1, 2, 3, 4, 40, 0, 0, 0, 5, 6, 7, 8, 70, 0, 0, 0, 9, 9, 9, 9]);
}

#[test]
fn a_uniform_image_stays_uniform() {
    let mut data = vec![77u8; 8 * 8 * 4];
    box_blur(&mut data, 8, 8, 32, num(2.0));
    assert_eq!(data, vec![77u8; 8 * 8 * 4]);
}

#[test]
fn a_pass_of_radius_zero_changes_nothing() {
    let start: Vec<u8> = (0..48u8).collect();
    let mut data = start.clone();
    box_blur_horizontal(&mut data, 3, 3, 16, 0);
    box_blur_vertical(&mut data, 3, 3, 16, 0);
    assert_eq!(data, start);
}

#[test]
fn a_picture_of_one_color_keeps_it_up_to_the_edges() {
    let start = [10u8, 99, 200, 255].repeat(35);
    let mut data = start.clone();
    box_blur(&mut data, 7, 5, 28, num(4.0));
    assert_eq!(data, start);
}

#[test]
fn a_shape_spreads_by_the_radius_in_each_pass_at_most() {
    let size = 41;
    let mut data = single_pixel_buffer(size);
    box_blur(&mut data, size, size, size * 4, num(2.0));
    let center = size / 2;
    for y in 0..size {
        for x in 0..size {
            if (x - center).abs() > 6 || (y - center).abs() > 6 {
                assert_eq!(data[(y * size * 4 + x * 4 + 3) as usize], 0);
            }
        }
    }
}

#[test]
fn a_blur_brings_nothing_new_and_keeps_pixels_premultiplied() {
    let pixels: [[u8; 4]; 4] = [[10, 0, 40, 40], [90, 200, 7, 200], [0, 0, 0, 0], [55, 33, 60, 120]];
    let start: Vec<u8> = (0..63).flat_map(|i: usize| pixels[(i * i + i / 9) % 4]).collect();
    let mut data = start.clone();
    box_blur(&mut data, 9, 7, 36, num(1.0));
    assert_ne!(data, start);
    for channel in 0..4 {
        let of = |bytes: &[u8]| -> Vec<u8> { bytes.iter().skip(channel).step_by(4).copied().collect() };
        let (before, after) = (of(&start), of(&data));
        assert!(after.iter().all(|v| before.iter().min() <= Some(v) && Some(v) <= before.iter().max()));
    }
    for pixel in data.chunks(4) {
        assert!(pixel[0] <= pixel[3] && pixel[1] <= pixel[3] && pixel[2] <= pixel[3]);
    }
}
