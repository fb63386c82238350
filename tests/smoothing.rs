use intensity_smooth::{
    commit, decode, encode, find_position, floor_clamp, less_than, malformed_reply, neighborhood,
    respond, same_value, FramingError, Neighbors, Point, FLOOR_BITS, RECORD_LEN,
};

fn shift(c: u32, d: i32) -> u32 {
    (f32::from_bits(c) - d as f32).to_bits()
}

fn mean(cs: Vec<u32>) -> u32 {
    let sum: f32 = cs.iter().map(|b| f32::from_bits(*b)).sum();
    (sum / cs.len() as f32).to_bits()
}

fn body_of(points: &[(f32, f32, f32)]) -> Vec<u8> {
    let mut out = Vec::new();
    for (x, y, i) in points {
        out.extend_from_slice(&x.to_le_bytes());
        out.extend_from_slice(&y.to_le_bytes());
        out.extend_from_slice(&i.to_le_bytes());
    }
    out
}

fn points_of(bytes: &[u8]) -> Vec<(f32, f32, f32)> {
    assert_eq!(bytes.len() % 12, 0);
    bytes
        .chunks_exact(12)
        .map(|c| {
            let w = |k: usize| f32::from_le_bytes([c[k], c[k + 1], c[k + 2], c[k + 3]]);
            (w(0), w(4), w(8))
        })
        .collect()
}

fn smooth(points: &[(f32, f32, f32)]) -> Vec<(f32, f32, f32)> {
    points_of(&respond(&body_of(points), shift, mean))
}

fn pt(x: f32, y: f32, i: f32) -> Point {
    Point { x: x.to_bits(), y: y.to_bits(), intensity: i.to_bits() }
}

fn neighbors_of(x: f32, y: f32) -> Neighbors {
    let b = |c: f32| [(c + 1.0).to_bits(), c.to_bits(), (c - 1.0).to_bits()];
    Neighbors { xs: b(x), ys: b(y) }
}

#[test]
fn misframed_bodies_get_the_sentinel() {
    for len in [1usize, 5, 11, 13, 23, 25] {
        let body = vec![0u8; len];
        assert_eq!(respond(&body, shift, mean), b"Malformed data".to_vec());
    }
    assert_eq!(malformed_reply(), b"Malformed data".to_vec());
}

#[test]
fn decode_rejects_misframed_length() {
    assert_eq!(decode(&vec![1u8; 13]), Err(FramingError { len: 13 }));
    assert_eq!(decode(&vec![1u8; 7]), Err(FramingError { len: 7 }));
}

#[test]
fn empty_body_gives_empty_reply() {
    assert_eq!(respond(&Vec::new(), shift, mean), Vec::<u8>::new());
    assert_eq!(decode(&Vec::new()), Ok(Vec::new()));
}

#[test]
fn decode_reads_little_endian_records() {
    let body = body_of(&[(1.5, -2.0, 0.25), (3.0, 4.0, 5.0)]);
    assert_eq!(RECORD_LEN, 12);
    assert_eq!(decode(&body), Ok(vec![pt(1.5, -2.0, 0.25), pt(3.0, 4.0, 5.0)]));
    let raw = vec![1u8, 2, 3, 4, 5, 6, 7, 8, 9, 10, 11, 12];
    assert_eq!(
        decode(&raw),
        Ok(vec![Point { x: 0x0403_0201, y: 0x0807_0605, intensity: 0x0c0b_0a09 }])
    );
}

#[test]
fn encode_writes_records_in_order() {
    let ps = vec![Point { x: 0x0403_0201, y: 0x0807_0605, intensity: 0x0c0b_0a09 }, pt(0.0, 1.0, 2.0)];
    let mut expected = vec![1u8, 2, 3, 4, 5, 6, 7, 8, 9, 10, 11, 12];
    expected.extend_from_slice(&body_of(&[(0.0, 1.0, 2.0)]));
    assert_eq!(encode(&ps), expected);
    assert_eq!(decode(&encode(&ps)), Ok(ps));
}

#[test]
fn nan_and_infinity_pass_through_the_codec() {
    let body = body_of(&[(f32::NAN, f32::INFINITY, f32::NEG_INFINITY)]);
    let ps = decode(&body).unwrap();
    assert_eq!(encode(&ps), body);
}

#[test]
fn single_point_example() {
    let body = body_of(&[(0.0, 0.0, 1.0)]);
    let out = respond(&body, shift, mean);
    assert_eq!(out.len(), 12);
    let ps = points_of(&out);
    assert_eq!(ps[0].0.to_bits(), 0.0f32.to_bits());
    assert_eq!(ps[0].1.to_bits(), 0.0f32.to_bits());
    assert_eq!(ps[0].2, 1.0f32 / 9.0);
    assert!((ps[0].2 - 0.1111).abs() < 1e-4);
}

#[test]
fn isolated_low_point_is_floored_to_zero() {
    let ps = smooth(&[(3.0, 7.0, 0.05)]);
    assert_eq!(ps[0].2.to_bits(), 0.0f32.to_bits());
    assert_eq!(ps[0].0, 3.0);
    assert_eq!(ps[0].1, 7.0);
}

#[test]
fn chain_uses_original_intensities() {
    let ps = smooth(&[(0.0, 0.0, 1.0), (1.0, 0.0, 0.0), (2.0, 0.0, 0.0)]);
    assert_eq!(ps[0].2, 1.0f32 / 9.0);
    assert_eq!(ps[1].2, 1.0f32 / 9.0);
    assert_eq!(ps[2].2, 0.0);
}

#[test]
fn uniform_grid_keeps_interior_intensity() {
    let mut grid = Vec::new();
    for x in 0..5 {
        for y in 0..5 {
            grid.push((x as f32, y as f32, 0.5f32));
        }
    }
    let out = smooth(&grid);
    for (k, (x, y, i)) in out.iter().enumerate() {
        assert_eq!((*x, *y), (grid[k].0, grid[k].1));
        if *x >= 1.0 && *x <= 3.0 && *y >= 1.0 && *y <= 3.0 {
            assert_eq!(*i, 0.5);
        } else {
            assert!(*i < 0.5);
        }
    }
    assert_eq!(out[0].2, 0.5 * 4.0 / 9.0);
}

#[test]
fn length_and_coordinates_are_kept() {
    let input = vec![
        (0.0, 0.0, 0.3),
        (0.5, 0.25, 0.9),
        (1.0, 0.0, 0.01),
        (-4.0, 2.0, 7.0),
        (1.0, 1.0, -3.0),
        (0.0, 0.0, 2.0),
    ];
    let body = body_of(&input);
    let out = respond(&body, shift, mean);
    assert_eq!(out.len(), body.len());
    for k in 0..input.len() {
        assert_eq!(out[12 * k..12 * k + 8], body[12 * k..12 * k + 8]);
    }
}

#[test]
fn duplicate_positions_match_the_first() {
    let points = vec![pt(0.0, 0.0, 1.0), pt(1.0, 0.0, 0.9), pt(1.0, 0.0, 0.3)];
    assert_eq!(find_position(&points, 1.0f32.to_bits(), 0.0f32.to_bits()), Some(1));
    assert_eq!(find_position(&points, 2.0f32.to_bits(), 0.0f32.to_bits()), None);
    let c = neighborhood(&points, &neighbors_of(0.0, 0.0));
    assert_eq!(c[1], 0.9f32.to_bits());
    let c = neighborhood(&points, &neighbors_of(2.0, 0.0));
    assert_eq!(c[7], 0.9f32.to_bits());
}

#[test]
fn lookup_treats_zeros_as_equal_and_nan_as_absent() {
    let points = vec![pt(-0.0, 0.0, 0.7), pt(f32::NAN, 1.0, 0.2)];
    assert_eq!(find_position(&points, 0.0f32.to_bits(), (-0.0f32).to_bits()), Some(0));
    assert_eq!(find_position(&points, f32::NAN.to_bits(), 1.0f32.to_bits()), None);
}

#[test]
fn neighborhood_order_and_missing_positions() {
    let points = vec![pt(5.0, 5.0, 0.1), pt(4.0, 6.0, 0.2), pt(6.0, 4.0, 0.3), pt(5.0, 4.0, 0.4)];
    let c = neighborhood(&points, &neighbors_of(5.0, 5.0));
    let z = 0.0f32.to_bits();
    let expected = vec![
        z,
        z,
        0.3f32.to_bits(),
        z,
        0.1f32.to_bits(),
        0.4f32.to_bits(),
        0.2f32.to_bits(),
        z,
        z,
    ];
    assert_eq!(c, expected);
}

#[test]
fn floor_constant_is_two_hundredths() {
    assert_eq!(FLOOR_BITS, 0.02f32.to_bits());
}

#[test]
fn floor_clamp_cases() {
    assert_eq!(floor_clamp(0.01f32.to_bits()), 0);
    assert_eq!(floor_clamp((0.05f32 / 9.0).to_bits()), 0);
    assert_eq!(floor_clamp(0.02f32.to_bits()), 0.02f32.to_bits());
    assert_eq!(floor_clamp(0.5f32.to_bits()), 0.5f32.to_bits());
    assert_eq!(floor_clamp((-1.0f32).to_bits()), 0);
    assert_eq!(floor_clamp((-0.0f32).to_bits()), 0);
    assert_eq!(floor_clamp(f32::NAN.to_bits()), f32::NAN.to_bits());
    assert_eq!(floor_clamp(f32::INFINITY.to_bits()), f32::INFINITY.to_bits());
    assert_eq!(floor_clamp(f32::NEG_INFINITY.to_bits()), 0);
}

#[test]
fn comparisons_follow_ieee() {
    let b = |v: f32| v.to_bits();
    let values = [0.0f32, -0.0, 1.0, -1.0, 0.02, 1e-40, -1e-40, f32::INFINITY, f32::NEG_INFINITY, f32::NAN, 3.0e38, -2.5e-3];
    for a in values {
        for c in values {
            assert_eq!(same_value(b(a), b(c)), a == c, "{a} == {c}");
            assert_eq!(less_than(b(a), b(c)), a < c, "{a} < {c}");
        }
    }
}

#[test]
fn commit_floors_and_keeps_coordinates() {
    let points = vec![pt(1.0, 2.0, 0.9), pt(3.0, 4.0, 0.8)];
    let means = vec![0.01f32.to_bits(), 0.25f32.to_bits()];
    let out = commit(&points, &means);
    assert_eq!(out, vec![pt(1.0, 2.0, 0.0), pt(3.0, 4.0, 0.25)]);
}
