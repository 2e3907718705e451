use alacritty_panes::binary32::Binary32;

fn num(value: f32) -> Binary32 {
    Binary32::from_bits(value.to_bits())
}

/// The bits of a result, with every NaN taken to be the same.
fn canonical(value: f32) -> u32 {
    if value.is_nan() {
        0x7fc0_0000
    } else {
        value.to_bits()
    }
}

/// Encodings at the edges of the format, and pseudo-random ones.
fn samples() -> Vec<u32> {
    let mut bits = vec![
        0, 1, 2, 0x7f_ffff, 0x80_0000, 0x80_0001, 0x00ff_ffff, 0x0100_0000, 0x3f80_0000, 0x3f7f_ffff,
        0x3f80_0001, 0x4b80_0000, 0x4b7f_ffff, 0x7f7f_ffff, 0x7f00_0000, 0x7f80_0000, 0x7f80_0001,
        0x7fc0_0000, 0x3d4c_cccd, 0x3f00_0000, 0x5f00_0000, 0x5f80_0000, 0x4780_0000, 0x477f_ff00,
    ];
    let mut state: u32 = 12345;
    for _ in 0..120 {
        state = state.wrapping_mul(1664525).wrapping_add(1013904223);
        bits.push(state);
    }
    // Numbers of a similar size, whose sums and differences cancel.
    for _ in 0..60 {
        state = state.wrapping_mul(1664525).wrapping_add(1013904223);
        bits.push(0x4300_0000 + (state >> 7));
    }
    let negative: Vec<u32> = bits.iter().map(|b| b ^ 0x8000_0000).collect();
    bits.extend(negative);
    bits
}

#[test]
fn arithmetic_rounds_as_the_machine_does() {
    let bits = samples();
    for &a in &bits {
        for &b in &bits {
            let (x, y) = (f32::from_bits(a), f32::from_bits(b));
            let (p, q) = (Binary32::from_bits(a), Binary32::from_bits(b));
            assert_eq!(p.plus(q).to_bits(), canonical(x + y), "{x:e} + {y:e}");
            assert_eq!(p.minus(q).to_bits(), canonical(x - y), "{x:e} - {y:e}");
            assert_eq!(p.times(q).to_bits(), canonical(x * y), "{x:e} * {y:e}");
            assert_eq!(p.over(q).to_bits(), canonical(x / y), "{x:e} / {y:e}");
        }
    }
}

#[test]
fn comparison_agrees_with_the_machine() {
    let bits = samples();
    for &a in &bits {
        for &b in &bits {
            let (x, y) = (f32::from_bits(a), f32::from_bits(b));
            let (p, q) = (Binary32::from_bits(a), Binary32::from_bits(b));
            assert_eq!(p.lt(q), x < y, "{x:e} < {y:e}");
            assert_eq!(p.le(q), x <= y, "{x:e} <= {y:e}");
            if x != 0. || y != 0. {
                assert_eq!(canonical(f32::from_bits(p.max(q).to_bits())), canonical(x.max(y)));
            }
            if x <= y {
                for &c in bits.iter().step_by(37) {
                    let z = f32::from_bits(c);
                    let clamped = Binary32::from_bits(c).clamp(p, q);
                    assert_eq!(clamped.to_bits(), z.clamp(x, y).to_bits());
                }
            }
        }
    }
}

#[test]
fn conversion_agrees_with_the_machine() {
    for &a in &samples() {
        let x = f32::from_bits(a);
        let p = Binary32::from_bits(a);
        assert_eq!(p.to_usize(), x as usize, "{x:e} as usize");
        assert_eq!(p.to_u16(), x as u16, "{x:e} as u16");
        assert_eq!(p.abs().to_bits(), x.abs().to_bits());
        let n = a as usize;
        assert_eq!(Binary32::from_usize(n).to_bits(), (n as f32).to_bits());
        let n = (a as usize).wrapping_mul(0x1_0000_0001);
        assert_eq!(Binary32::from_usize(n).to_bits(), (n as f32).to_bits());
    }
    assert_eq!(Binary32::from_usize(usize::MAX).to_bits(), (usize::MAX as f32).to_bits());
    assert_eq!(Binary32::from_usize(16_777_217).to_bits(), num(16_777_216.).to_bits());
}

#[test]
fn invalid_operations_give_nan() {
    let inf = num(f32::INFINITY);
    let zero = num(0.);
    assert_eq!(inf.minus(inf).to_bits(), 0x7fc0_0000);
    assert_eq!(inf.times(zero).to_bits(), 0x7fc0_0000);
    assert_eq!(zero.over(zero).to_bits(), 0x7fc0_0000);
    assert_eq!(inf.over(inf).to_bits(), 0x7fc0_0000);
    assert!(!zero.over(zero).le(zero));
}
