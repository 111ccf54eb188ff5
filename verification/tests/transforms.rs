use pixelops::TransformError;
use pixelops::edge::EdgeMode;
use pixelops::edge::edge_detection;
use pixelops::invert::invert_colors;
use pixelops::quantize::quantize;

/// Builds a buffer from per-pixel RGBA values.
fn buffer_of(pixels: &[[u8; 4]]) -> Vec<u8> {
    let mut data: Vec<u8> = Vec::new();
    for p in pixels {
        data.push(p[0]);
        data.push(p[1]);
        data.push(p[2]);
        data.push(p[3]);
    }
    data
}

/// Buffer of `n` copies of one RGBA pixel.
fn uniform_buffer(n: usize, p: [u8; 4]) -> Vec<u8> {
    let mut data: Vec<u8> = Vec::new();
    for _ in 0..n {
        data.push(p[0]);
        data.push(p[1]);
        data.push(p[2]);
        data.push(p[3]);
    }
    data
}

fn distinct_colors(data: &[u8]) -> Vec<[u8; 3]> {
    let mut seen: Vec<[u8; 3]> = Vec::new();
    for j in 0..data.len() / 4 {
        let c = [data[4 * j], data[4 * j + 1], data[4 * j + 2]];
        if !seen.contains(&c) {
            seen.push(c);
        }
    }
    seen
}

#[test]
fn invert_red_to_cyan() {
    let data = uniform_buffer(16, [255, 0, 0, 255]);
    let out = invert_colors(&data, 4, 4).unwrap();
    assert_eq!(out, uniform_buffer(16, [0, 255, 255, 255]));
}

#[test]
fn invert_is_involutive() {
    let data = buffer_of(&[
        [1, 2, 3, 4],
        [255, 0, 128, 9],
        [17, 200, 33, 0],
        [90, 91, 92, 93],
    ]);
    let once = invert_colors(&data, 2, 2).unwrap();
    let twice = invert_colors(&once, 2, 2).unwrap();
    assert_eq!(twice, data);
    assert_ne!(once, data);
}

#[test]
fn invert_rejects_length_mismatch() {
    let data = uniform_buffer(3, [0, 0, 0, 0]);
    assert_eq!(invert_colors(&data, 2, 2), Err(TransformError::LengthMismatch));
}

#[test]
fn quantize_is_deterministic() {
    let mut data: Vec<u8> = Vec::new();
    for i in 0..64 {
        let v = (i * 37 % 256) as u8;
        data.push(v);
        data.push(v.wrapping_mul(3));
        data.push(255 - v);
        data.push(255);
    }
    let a = quantize(&data, 8, 8, 3).unwrap();
    let b = quantize(&data, 8, 8, 3).unwrap();
    assert_eq!(a, b);
}

#[test]
fn quantize_checkerboard_keeps_both_colors() {
    let red: [u8; 4] = [255, 0, 0, 255];
    let blue: [u8; 4] = [0, 0, 255, 255];
    let mut pixels: Vec<[u8; 4]> = Vec::new();
    for y in 0..4 {
        for x in 0..4 {
            pixels.push(if (x + y) % 2 == 0 { red } else { blue });
        }
    }
    let data = buffer_of(&pixels);
    let out = quantize(&data, 4, 4, 2).unwrap();
    assert_eq!(out, data);
    assert_eq!(distinct_colors(&out).len(), 2);
}

#[test]
fn quantize_lossless_when_k_covers_colors() {
    let c1: [u8; 4] = [10, 20, 30, 255];
    let c2: [u8; 4] = [200, 100, 50, 128];
    let c3: [u8; 4] = [0, 255, 128, 0];
    let data = buffer_of(&[c1, c2, c3, c3, c1, c2, c2, c3, c1]);
    let out = quantize(&data, 3, 3, 3).unwrap();
    assert_eq!(out, data);
}

#[test]
fn quantize_uniform_image_single_cluster() {
    let data = uniform_buffer(4, [7, 99, 201, 3]);
    let out = quantize(&data, 2, 2, 1).unwrap();
    assert_eq!(out, data);
}

#[test]
fn quantize_uses_at_most_k_colors() {
    let data = buffer_of(&[
        [0, 0, 0, 255],
        [255, 255, 255, 255],
        [255, 0, 0, 255],
        [0, 0, 255, 255],
        [10, 10, 10, 255],
        [250, 250, 250, 255],
        [200, 30, 30, 255],
        [30, 30, 200, 255],
    ]);
    let out = quantize(&data, 4, 2, 2).unwrap();
    assert!(distinct_colors(&out).len() <= 2);
    assert_eq!(out.len(), data.len());
}

#[test]
fn quantize_preserves_alpha() {
    let data = buffer_of(&[
        [50, 60, 70, 0],
        [50, 60, 70, 1],
        [200, 10, 10, 2],
        [200, 10, 10, 254],
    ]);
    let out = quantize(&data, 2, 2, 2).unwrap();
    for j in 0..4 {
        assert_eq!(out[4 * j + 3], data[4 * j + 3]);
    }
}

#[test]
fn quantize_rejects_length_mismatch() {
    let data = uniform_buffer(5, [1, 2, 3, 4]);
    assert_eq!(quantize(&data, 2, 2, 2), Err(TransformError::LengthMismatch));
}

#[test]
fn edge_uniform_gray_binary() {
    let data = uniform_buffer(25, [128, 128, 128, 255]);
    let out = edge_detection(&data, 5, 5, EdgeMode::BinaryThreshold).unwrap();
    for y in 0..5usize {
        for x in 0..5usize {
            let j = y * 5 + x;
            let interior = (1..4).contains(&x) && (1..4).contains(&y);
            let expect: [u8; 4] = if interior { [0, 0, 0, 255] } else { [0, 0, 0, 0] };
            assert_eq!(&out[4 * j..4 * j + 4], &expect);
        }
    }
}

#[test]
fn edge_uniform_gray_continuous() {
    let data = uniform_buffer(25, [128, 128, 128, 255]);
    let out = edge_detection(&data, 5, 5, EdgeMode::ContinuousMagnitude).unwrap();
    for j in 0..25usize {
        assert_eq!(&out[4 * j..4 * j + 3], &[0, 0, 0]);
        assert_eq!(out[4 * j + 3], 255);
    }
}

#[test]
fn edge_continuous_exact_magnitude() {
    // Grayscale plane 0 everywhere except 100 at the bottom-right corner:
    // at the center, gx = gy = 100, magnitude = round(sqrt(20000)) = 141.
    let mut pixels: Vec<[u8; 4]> = vec![[0, 0, 0, 255]; 9];
    pixels[8] = [100, 100, 100, 255];
    pixels[0] = [0, 0, 0, 42];
    let data = buffer_of(&pixels);
    let out = edge_detection(&data, 3, 3, EdgeMode::ContinuousMagnitude).unwrap();
    let center = 4 * (1 * 3 + 1);
    assert_eq!(&out[center..center + 4], &[141, 141, 141, 255]);
    // Border: zero magnitude, original alpha carried through.
    assert_eq!(&out[0..4], &[0, 0, 0, 42]);
}

#[test]
fn edge_binary_strong_edge() {
    // Black columns, then a white column: the blurred center is 64 and the
    // Sobel magnitude clamps to 255, above the 170 threshold.
    let mut pixels: Vec<[u8; 4]> = Vec::new();
    for _y in 0..3 {
        pixels.push([0, 0, 0, 255]);
        pixels.push([0, 0, 0, 255]);
        pixels.push([255, 255, 255, 255]);
    }
    let data = buffer_of(&pixels);
    let out = edge_detection(&data, 3, 3, EdgeMode::BinaryThreshold).unwrap();
    let center = 4 * (1 * 3 + 1);
    assert_eq!(&out[center..center + 4], &[255, 255, 255, 255]);
    assert_eq!(&out[0..4], &[0, 0, 0, 0]);
}

#[test]
fn edge_deterministic_and_symmetric() {
    // Horizontally symmetric 4x4 image: the output is symmetric too.
    let a: [u8; 4] = [200, 10, 40, 255];
    let b: [u8; 4] = [0, 90, 180, 255];
    let mut pixels: Vec<[u8; 4]> = Vec::new();
    for _y in 0..4 {
        pixels.push(a);
        pixels.push(b);
        pixels.push(b);
        pixels.push(a);
    }
    let data = buffer_of(&pixels);
    for mode in [EdgeMode::BinaryThreshold, EdgeMode::ContinuousMagnitude] {
        let out = edge_detection(&data, 4, 4, mode).unwrap();
        let again = edge_detection(&data, 4, 4, mode).unwrap();
        assert_eq!(out, again);
        for y in 0..4usize {
            for x in 0..4usize {
                let j = y * 4 + x;
                let jm = y * 4 + (3 - x);
                assert_eq!(&out[4 * j..4 * j + 4], &out[4 * jm..4 * jm + 4]);
            }
        }
    }
}

#[test]
fn edge_rejects_small_and_mismatched() {
    let small = uniform_buffer(4, [0, 0, 0, 255]);
    assert_eq!(
        edge_detection(&small, 2, 2, EdgeMode::BinaryThreshold),
        Err(TransformError::ImageTooSmall)
    );
    let bad = uniform_buffer(5, [0, 0, 0, 255]);
    assert_eq!(
        edge_detection(&bad, 2, 2, EdgeMode::ContinuousMagnitude),
        Err(TransformError::LengthMismatch)
    );
}
