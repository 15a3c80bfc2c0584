use voxel_engine::voxel::{sphere_contains, Vec3Bits, Voxel, VoxelGrid, VoxelType, HEADER_WORDS};

fn quantize(c: f32, max: u32) -> u32 {
    (c.abs() * max as f32) as u32
}

#[test]
fn color_fields() {
    let mut v = Voxel::default();
    assert_eq!(v.get_color(), (0, 0, 0));
    v.set_color(31, 63, 31);
    assert_eq!(v.0, 0xffff_0000);
    assert_eq!(v.get_color(), (31, 63, 31));

    let mut w = Voxel(0);
    w.set_color(1, 2, 3);
    assert_eq!(w.0, (1 << 27) | (2 << 21) | (3 << 16));
    assert_eq!(w.get_color(), (1, 2, 3));
    assert_eq!(w.get_voxel_type(), 0);
}

#[test]
fn color_levels_are_clamped() {
    let mut v = Voxel(0);
    v.set_color(40, 70, 99);
    assert_eq!(v.get_color(), (31, 63, 31));
    assert_eq!(v.get_voxel_type(), 0);
}

#[test]
fn color_is_or_ed_in() {
    let mut v = Voxel(0);
    v.set_color(1, 0, 0);
    v.set_color(2, 0, 0);
    assert_eq!(v.get_color(), (3, 0, 0));
}

#[test]
fn color_round_trip_within_quantization() {
    let colors: [(f32, f32, f32); 5] = [
        (0.0, 0.0, 0.0),
        (1.0, 1.0, 1.0),
        (0.5, 0.3, 0.1),
        (0.9, 0.05, 0.77),
        (0.33, 0.66, 0.99),
    ];
    for (r, g, b) in colors {
        let mut v = Voxel(0);
        v.set_color(quantize(r, 31), quantize(g, 63), quantize(b, 31));
        let (qr, qg, qb) = v.get_color();
        let (ur, ug, ub) = (qr as f32 / 31.0, qg as f32 / 63.0, qb as f32 / 31.0);
        assert!((ur - r).abs() <= 1.0 / 31.0 + 1e-6);
        assert!((ug - g).abs() <= 1.0 / 63.0 + 1e-6);
        assert!((ub - b).abs() <= 1.0 / 31.0 + 1e-6);
    }
}

#[test]
fn voxel_type_replaces_low_byte() {
    let mut v = Voxel(0x1234_56ff);
    assert_eq!(v.get_voxel_type(), 0xff);
    v.set_voxel_type(0x1ab);
    assert_eq!(v.0, 0x1234_56ab);
    assert_eq!(v.get_voxel_type(), 0xab);
    let mut w = Voxel(0);
    w.set_color(5, 6, 7);
    w.set_voxel_type(9);
    assert_eq!(w.get_color(), (5, 6, 7));
    assert_eq!(w.get_voxel_type(), 9);
}

#[test]
fn voxel_type_default() {
    assert_eq!(VoxelType::default(), VoxelType::Grass);
    assert_ne!(VoxelType::Dirt, VoxelType::Grass);
}

fn origin() -> Vec3Bits {
    Vec3Bits { x: 0, y: 0, z: 0 }
}

#[test]
fn grid_bounds() {
    let d = 3u32;
    let g = VoxelGrid::new(d, origin());
    assert_eq!(g.total(), 27);
    assert_eq!(g.as_slice().len(), 27);
    for x in 0..d {
        for y in 0..d {
            for z in 0..d {
                assert_eq!(g.get(x, y, z), Some(&Voxel(0)));
            }
        }
    }
    assert!(g.get(3, 0, 0).is_none());
    assert!(g.get(0, 3, 0).is_none());
    assert!(g.get(0, 0, 3).is_none());
    assert!(g.get(0, 0, 4).is_none());
    assert!(g.get(u32::MAX, u32::MAX, u32::MAX).is_none());
}

#[test]
fn grid_row_major() {
    let mut g = VoxelGrid::new(4, origin());
    g.get_mut(1, 2, 3).unwrap().set_voxel_type(7);
    assert_eq!(g.as_slice()[1 * 16 + 2 * 4 + 3], Voxel(7));
    assert_eq!(g.get(1, 2, 3).unwrap().get_voxel_type(), 7);
    assert_eq!(g.get(3, 2, 1).unwrap().get_voxel_type(), 0);
    assert!(g.get_mut(4, 0, 0).is_none());
}

#[test]
fn empty_grid() {
    let g = VoxelGrid::new(0, origin());
    assert_eq!(g.total(), 0);
    assert!(g.get(0, 0, 0).is_none());
    assert_eq!(g.to_upload_words().len(), HEADER_WORDS);
}

#[test]
fn upload_layout() {
    let pos = Vec3Bits { x: 1.5f32.to_bits(), y: 2.0f32.to_bits(), z: (-3.0f32).to_bits() };
    let mut g = VoxelGrid::new(2, pos);
    g.get_mut(0, 0, 1).unwrap().set_voxel_type(5);
    g.get_mut(1, 1, 1).unwrap().set_color(1, 1, 1);
    let w = g.to_upload_words();
    assert_eq!(w.len(), HEADER_WORDS + 8);
    assert_eq!(&w[0..4], &[2, 0, 0, 0]);
    assert_eq!(&w[4..8], &[1.5f32.to_bits(), 2.0f32.to_bits(), (-3.0f32).to_bits(), 0]);
    let minus_one = (-1.0f32).to_bits();
    assert_eq!(&w[8..12], &[minus_one, minus_one, minus_one, 0]);
    assert_eq!(&w[12..16], &[0, 0, 0, 0]);
    assert_eq!(w[HEADER_WORDS], 0);
    assert_eq!(w[HEADER_WORDS + 1], 5);
    assert_eq!(w[HEADER_WORDS + 7], (1 << 27) | (1 << 21) | (1 << 16));
    assert_eq!((HEADER_WORDS * 4) % 16, 0);
}

#[test]
fn sphere_membership() {
    assert!(sphere_contains(10, 5, 5, 5));
    assert!(!sphere_contains(10, 0, 0, 0));
    assert!(!sphere_contains(10, 9, 9, 9));
    // (2*0 - 10)^2 + 0 + 0 = 100 > 81
    assert!(!sphere_contains(10, 0, 5, 5));
    // (2*1 - 10)^2 = 64 <= 81
    assert!(sphere_contains(10, 1, 5, 5));
    // (2*0 - 1)^2 * 3 = 3 > 0
    assert!(!sphere_contains(1, 0, 0, 0));
    assert!(sphere_contains(u32::MAX, u32::MAX / 2, u32::MAX / 2, u32::MAX / 2));
}

#[test]
fn fill_sphere_paints_inside_only() {
    let d = 6u32;
    let mut g = VoxelGrid::new(d, origin());
    let colors: Vec<(u32, u32, u32)> = (0..g.total()).map(|i| ((i % 32) as u32, 2, 3)).collect();
    g.fill_sphere(&colors);
    let mut inside = 0;
    for x in 0..d {
        for y in 0..d {
            for z in 0..d {
                let i = (x * d * d + y * d + z) as usize;
                let n = d as i64;
                let (a, b, c) = (2 * x as i64 - n, 2 * y as i64 - n, 2 * z as i64 - n);
                let expected = if a * a + b * b + c * c <= (n - 1) * (n - 1) {
                    inside += 1;
                    let mut v = Voxel(0);
                    v.set_color(colors[i].0, colors[i].1, colors[i].2);
                    v
                } else {
                    Voxel(0)
                };
                assert_eq!(*g.get(x, y, z).unwrap(), expected);
            }
        }
    }
    assert!(inside > 0 && inside < 216);
}

#[test]
fn voxel_into_bits() {
    let mut v = Voxel(0);
    v.set_color(2, 4, 6);
    v.set_voxel_type(42);
    let bits: u32 = v.into();
    assert_eq!(bits, (2 << 27) | (4 << 21) | (6 << 16) | 42);
    assert_eq!(u32::from(Voxel(7)), 7);
}
