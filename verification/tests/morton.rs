use zorder_index::morton::{
    dim_masks, morton_2, morton_4, morton_reverse_2, morton_reverse_4, ordered_float,
    ordered_float_reverse,
};

#[test]
fn test_morton() {
    // Testing a range of values for x and y
    for x in 0..16 {
        for y in 0..16 {
            let z = morton_2(x, y);
            let (xr, yr) = morton_reverse_2(z);
            assert_eq!(
                (x, y),
                (xr, yr),
                "Failed for (x={}, y={}): got (x={}, y={}) for (z={})",
                x,
                y,
                xr,
                yr,
                z
            );
        }
    }
}

#[test]
fn test_morton_2_exact() {
    // bit-interleave by hand: x on odd positions, y on even ones.
    assert_eq!(morton_2(0, 0), 0);
    assert_eq!(morton_2(1, 0), 2);
    assert_eq!(morton_2(0, 1), 1);
    assert_eq!(morton_2(1, 1), 3);
    assert_eq!(morton_2(2, 3), 0b1101);
    assert_eq!(morton_2(u32::MAX, u32::MAX), u64::MAX);
}

#[test]
fn test_morton_2_monotone() {
    // strictly monotone in each lane with the other fixed.
    let samples: [u32; 6] = [0, 1, 2, 255, 70_000, u32::MAX];
    for i in 1..samples.len() {
        let (c, d) = (samples[i - 1], samples[i]);
        assert!(morton_2(c, 12345) < morton_2(d, 12345));
        assert!(morton_2(12345, c) < morton_2(12345, d));
    }
}

#[test]
fn test_morton_4_roundtrip() {
    let cases: [(u16, u16, u16, u16); 5] = [
        (0, 0, 0, 0),
        (1, 2, 3, 4),
        (u16::MAX, 0, u16::MAX, 0),
        (12345, 54321, 999, 1),
        (u16::MAX, u16::MAX, u16::MAX, u16::MAX),
    ];
    for &(x, y, z, w) in cases.iter() {
        let m = morton_4(x, y, z, w);
        assert_eq!(morton_reverse_4(m), (x, y, z, w));
    }
    assert_eq!(morton_4(u16::MAX, u16::MAX, u16::MAX, u16::MAX), u64::MAX);
    assert_eq!(morton_4(1, 0, 0, 0), 8);
    assert_eq!(morton_4(0, 1, 0, 0), 4);
    assert_eq!(morton_4(0, 0, 1, 0), 2);
    assert_eq!(morton_4(0, 0, 0, 1), 1);
}

#[test]
fn test_ordered_float_roundtrip() {
    let samples: [f32; 12] = [
        0.0,
        -0.0,
        1.0,
        -1.0,
        0.5,
        -0.5,
        100.25,
        -100.25,
        f32::MIN_POSITIVE,
        f32::MAX,
        f32::INFINITY,
        f32::NEG_INFINITY,
    ];
    for &f in samples.iter() {
        let encoded = ordered_float(f.to_bits());
        let back = f32::from_bits(ordered_float_reverse(encoded));
        // bitwise identity, including the sign of zero.
        assert_eq!(back.to_bits(), f.to_bits());
    }
}

#[test]
fn test_ordered_float_exact() {
    assert_eq!(ordered_float(0.0f32.to_bits()), 0x8000_0000);
    assert_eq!(ordered_float((-0.0f32).to_bits()), 0x7FFF_FFFF);
}

#[test]
fn test_ordered_float_monotone() {
    // numerically ascending floats must encode to ascending unsigned values.
    let ascending: [f32; 11] = [
        f32::NEG_INFINITY,
        -f32::MAX,
        -2.5,
        -1.0,
        -f32::MIN_POSITIVE,
        0.0,
        f32::MIN_POSITIVE,
        1.0,
        2.5,
        f32::MAX,
        f32::INFINITY,
    ];
    for i in 1..ascending.len() {
        let a = ordered_float(ascending[i - 1].to_bits());
        let b = ordered_float(ascending[i].to_bits());
        assert!(a < b, "expected {} < {}", ascending[i - 1], ascending[i]);
    }
}

#[test]
fn test_dim_masks() {
    assert_eq!(
        dim_masks::<2>(),
        vec![0xAAAA_AAAA_AAAA_AAAA, 0x5555_5555_5555_5555]
    );
    let m4 = dim_masks::<4>();
    assert_eq!(m4.len(), 4);
    // disjoint masks covering all 64 bits, one bit of each 4-group per lane.
    assert_eq!(m4[0] | m4[1] | m4[2] | m4[3], u64::MAX);
    for i in 0..4 {
        for j in 0..4 {
            if i != j {
                assert_eq!(m4[i] & m4[j], 0);
            }
        }
    }
    assert_eq!(m4[3], 0x1111_1111_1111_1111);
}
