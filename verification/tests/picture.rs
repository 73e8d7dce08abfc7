use pathtracer::hittable::HittableList;
use pathtracer::image::{header, pixel_at, pixel_count, pixel_line, quantize};
use pathtracer::scalar::Scalar;
use pathtracer::integrator::{step, t_max, t_min, Step};

/// The header of a plain pixel map of the given size.
fn header_text(size: &str) -> Vec<u8> {
    let mut text = vec![b'P', b'3', b'\n'];
    text.extend_from_slice(size.as_bytes());
    text.extend_from_slice(b"\n255\n");
    text
}

#[test]
fn header_names_format_size_and_depth() {
    assert_eq!(header(600, 400), header_text("600 400"));
    assert_eq!(header(2, 2), header_text("2 2"));
    assert_eq!(header(0, 10), header_text("0 10"));
    assert_eq!(header(-7, 2147483647), header_text("-7 2147483647"));
    assert_eq!(header(1, 1).len(), 11);
    assert_eq!(header(1, 1)[0], 80);
    assert_eq!(header(1, 1)[1], 51);
}

#[test]
fn pixel_line_holds_three_channels() {
    assert_eq!(pixel_line(0, 128, 255), b"0 128 255\n".to_vec());
    assert_eq!(pixel_line(9, 10, 99), b"9 10 99\n".to_vec());
    assert_eq!(pixel_line(100, 101, 1000), b"100 101 1000\n".to_vec());
}

#[test]
fn channel_out_of_range_is_written_as_it_is() {
    assert_eq!(pixel_line(-1, 256, 100000), b"-1 256 100000\n".to_vec());
    assert_eq!(
        pixel_line(i32::MIN, i32::MAX, -10),
        b"-2147483648 2147483647 -10\n".to_vec()
    );
}

#[test]
fn pixel_line_is_what_formatting_gives() {
    for r in [-1000, -11, -10, -9, -1, 0, 1, 9, 10, 11, 99, 100, 254, 255, 256, 65535] {
        let g = r * 3 + 1;
        let b = 255 - r;
        assert_eq!(pixel_line(r, g, b), format!("{} {} {}\n", r, g, b).into_bytes());
    }
}

#[test]
fn picture_has_width_times_height_pixels() {
    assert_eq!(pixel_count(600, 400), 240000);
    assert_eq!(pixel_count(1, 1), 1);
    assert_eq!(pixel_count(0, 400), 0);
    assert_eq!(pixel_count(600, 0), 0);
    assert_eq!(pixel_count(-3, 4), 0);
    assert_eq!(pixel_count(-3, -4), 0);
    assert_eq!(pixel_count(i32::MAX, i32::MAX), 2147483647u64 * 2147483647u64);
}

#[test]
fn pixels_leave_row_by_row_from_the_top() {
    assert_eq!(pixel_at(0, 3, 2), Some((0, 1)));
    assert_eq!(pixel_at(1, 3, 2), Some((1, 1)));
    assert_eq!(pixel_at(2, 3, 2), Some((2, 1)));
    assert_eq!(pixel_at(3, 3, 2), Some((0, 0)));
    assert_eq!(pixel_at(4, 3, 2), Some((1, 0)));
    assert_eq!(pixel_at(5, 3, 2), Some((2, 0)));
    assert_eq!(pixel_at(6, 3, 2), None);
}

#[test]
fn pixel_order_is_that_of_the_nested_loops() {
    let nx = 7;
    let ny = 5;
    let mut line = 0u64;
    for j in (0..ny).rev() {
        for i in 0..nx {
            assert_eq!(pixel_at(line, nx, ny), Some((i, j)));
            line += 1;
        }
    }
    assert_eq!(line, pixel_count(nx, ny));
    assert_eq!(pixel_at(line, nx, ny), None);
}

#[test]
fn picture_without_pixels_has_no_lines() {
    assert_eq!(pixel_at(0, 0, 5), None);
    assert_eq!(pixel_at(0, 5, 0), None);
    assert_eq!(pixel_at(0, -2, -2), None);
    assert_eq!(pixel_at(u64::MAX, 600, 400), None);
}

#[test]
fn last_pixel_of_a_large_picture_is_bottom_right() {
    let count = pixel_count(i32::MAX, i32::MAX);
    assert_eq!(pixel_at(count - 1, i32::MAX, i32::MAX), Some((i32::MAX - 1, 0)));
    assert_eq!(pixel_at(0, i32::MAX, i32::MAX), Some((0, i32::MAX - 1)));
}

/// The background for a ray of the given direction.
fn background(direction: [f32; 3]) -> [f32; 3] {
    let length = (direction[0] * direction[0]
        + direction[1] * direction[1]
        + direction[2] * direction[2])
        .sqrt();
    let t = 0.5 * (direction[1] / length + 1.0);
    [(1.0 - t) * 1.0 + t * 0.5, (1.0 - t) * 1.0 + t * 0.7, (1.0 - t) * 1.0 + t * 1.0]
}

#[test]
fn empty_scene_two_by_two_is_the_background() {
    let nx = 2;
    let ny = 2;
    let scene = HittableList::new(Vec::new());
    let mut text = header(nx, ny);
    let mut expected = header_text("2 2");
    // Centres of the four pixels seen through a screen at z = -1 that spans
    // [-2, 2] by [-1, 1], top row first.
    let directions = [[-1.0, 0.5, -1.0], [1.0, 0.5, -1.0], [-1.0, -0.5, -1.0], [1.0, -0.5, -1.0]];
    for line in 0..pixel_count(nx, ny) {
        let (i, j) = pixel_at(line, nx, ny).expect("a pixel");
        let u = (i as f32 + 0.5) / nx as f32;
        let v = (j as f32 + 0.5) / ny as f32;
        let direction = [-2.0 + 4.0 * u, -1.0 + 2.0 * v, -1.0];
        assert_eq!(direction, directions[line as usize]);
        let hit = scene.hit(t_min(), t_max());
        assert_eq!(hit, None);
        assert_eq!(step(0, hit.is_some()), Step::Background);
        let colour = background(direction);
        let r = (255.99 * colour[0]) as i32;
        let g = (255.99 * colour[1]) as i32;
        let b = (255.99 * colour[2]) as i32;
        assert_eq!(quantize(Scalar::from_bits((255.99 * colour[0]).to_bits())), r);
        assert_eq!(quantize(Scalar::from_bits((255.99 * colour[1]).to_bits())), g);
        assert_eq!(quantize(Scalar::from_bits((255.99 * colour[2]).to_bits())), b);
        text.extend(pixel_line(r, g, b));
        expected.extend(format!("{} {} {}\n", r, g, b).into_bytes());
    }
    assert_eq!(text, expected);
    let again = String::from_utf8(text).expect("ascii");
    let lines: Vec<&str> = again.lines().collect();
    assert_eq!(lines.len(), 7);
    assert_eq!(lines[3], lines[4]);
    assert_eq!(lines[5], lines[6]);
    assert_ne!(lines[3], lines[5]);
}

fn q(x: f32) -> i32 {
    quantize(Scalar::from_bits(x.to_bits()))
}

#[test]
fn channel_is_rounded_down() {
    assert_eq!(q(0.0), 0);
    assert_eq!(q(-0.0), 0);
    assert_eq!(q(0.999), 0);
    assert_eq!(q(1.0), 1);
    assert_eq!(q(1.5), 1);
    assert_eq!(q(127.995), 127);
    assert_eq!(q(255.0), 255);
    assert_eq!(q(255.98999), 255);
    assert_eq!(q(255.99), 255);
    assert_eq!(q(256.0), 256);
    assert_eq!(q(8388607.5), 8388607);
    assert_eq!(q(16777216.0), 16777216);
    assert_eq!(q(16777218.0), 16777218);
    assert_eq!(q(2147483520.0), 2147483520);
}

#[test]
fn full_channel_maps_to_the_greatest_value() {
    assert_eq!(q(255.99 * 1.0), 255);
    assert_eq!(q(255.99 * 0.5), 127);
    assert_eq!(q(255.99 * 0.0), 0);
    assert_eq!(q(255.99 * 0.7), 179);
}

#[test]
fn negative_channel_is_rounded_down_too() {
    assert_eq!(q(-0.25), -1);
    assert_eq!(q(-1.0), -1);
    assert_eq!(q(-1.000_000_1), -2);
    assert_eq!(q(-2.5), -3);
    assert_eq!(q(-255.99), -256);
    assert_eq!(q(-f32::MIN_POSITIVE), -1);
    assert_eq!(q(f32::from_bits(0x8000_0001)), -1);
    assert_eq!(q(-2147483520.0), -2147483520);
}

#[test]
fn channel_beyond_the_range_is_held_at_its_end() {
    assert_eq!(q(2147483648.0), i32::MAX);
    assert_eq!(q(3.0e9), i32::MAX);
    assert_eq!(q(f32::MAX), i32::MAX);
    assert_eq!(q(f32::INFINITY), i32::MAX);
    assert_eq!(q(-2147483648.0), i32::MIN);
    assert_eq!(q(-2147483904.0), i32::MIN);
    assert_eq!(q(f32::MIN), i32::MIN);
    assert_eq!(q(f32::NEG_INFINITY), i32::MIN);
}

#[test]
fn channel_that_is_no_number_is_zero() {
    assert_eq!(q(f32::NAN), 0);
    assert_eq!(q(-f32::NAN), 0);
    assert_eq!(q(f32::from_bits(0x7f80_0001)), 0);
}

#[test]
fn quantize_agrees_with_the_floor_of_binary32() {
    let mut bits: u32 = 0;
    for _ in 0..200_000 {
        let x = f32::from_bits(bits);
        assert_eq!(q(x), x.floor() as i32, "{:?}", x);
        bits = bits.wrapping_add(0x0000_53a7);
    }
}

#[test]
fn quantize_agrees_with_the_cast_where_nothing_is_negative() {
    let mut x = 0.0f32;
    while x < 300.0 {
        assert_eq!(q(x), x as i32);
        x += 0.037;
    }
}
