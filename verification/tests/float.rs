use oneko::float::F32;

struct Numbers {
    state: u64,
}

impl Numbers {
    fn next(&mut self) -> u32 {
        self.state = self.state.wrapping_mul(6364136223846793005).wrapping_add(1442695040888963407);
        (self.state >> 32) as u32
    }

    // Encodings of all kinds: arbitrary ones, screen coordinates, neighbours of powers of two,
    // subnormal numbers and the special values.
    fn encoding(&mut self) -> u32 {
        let n = self.next();
        let pick = self.next();
        match pick % 8 {
            0 | 1 => n,
            2 => ((n % 200_000) as f32 / 37.0 - 1000.0).to_bits(),
            3 => ((n % 4000) as f32).to_bits(),
            4 => (n & 0xff80_0000).wrapping_add(pick >> 28).wrapping_sub(8),
            5 => n & 0x807f_ffff,
            6 => (n & 0x83ff_ffff) | 0x3c00_0000,
            _ => [
                0,
                0x8000_0000,
                0x7f80_0000,
                0xff80_0000,
                0x7fc0_0000,
                1,
                0x8000_0001,
                0x007f_ffff,
                0x0080_0000,
                0x7f7f_ffff,
                0xff7f_ffff,
                0x3f80_0000,
            ][(n % 12) as usize],
        }
    }
}

fn same(ours: F32, theirs: f32) -> bool {
    if theirs.is_nan() {
        f32::from_bits(ours.to_bits()).is_nan()
    } else {
        ours.to_bits() == theirs.to_bits()
    }
}

#[test]
fn arithmetic_agrees_with_the_machine() {
    let mut numbers = Numbers { state: 1 };
    for _ in 0..60_000 {
        let a = numbers.encoding();
        let b = numbers.encoding();
        let (x, y) = (f32::from_bits(a), f32::from_bits(b));
        let (p, q) = (F32::from_bits(a), F32::from_bits(b));
        assert!(same(p.plus(q), x + y), "{a:#x} + {b:#x}");
        assert!(same(p.minus(q), x - y), "{a:#x} - {b:#x}");
        assert!(same(p.times(q), x * y), "{a:#x} * {b:#x}");
        assert!(same(p.times(p), x.powi(2)), "{a:#x} squared");
        assert!(same(p.sqrt(), x.sqrt()), "root of {a:#x}");
    }
}

#[test]
fn close_operands_agree_with_the_machine() {
    let mut numbers = Numbers { state: 2 };
    for _ in 0..60_000 {
        let a = numbers.encoding();
        let b = (a ^ (numbers.next() & 0x8000_0000)).wrapping_add(numbers.next() % 0x400_0000);
        let (x, y) = (f32::from_bits(a), f32::from_bits(b));
        let (p, q) = (F32::from_bits(a), F32::from_bits(b));
        assert!(same(p.plus(q), x + y), "{a:#x} + {b:#x}");
        assert!(same(p.minus(q), x - y), "{a:#x} - {b:#x}");
    }
}

#[test]
fn comparisons_agree_with_the_machine() {
    let mut numbers = Numbers { state: 3 };
    for _ in 0..60_000 {
        let a = numbers.encoding();
        let b = if numbers.next() % 4 == 0 { a } else { numbers.encoding() };
        let (x, y) = (f32::from_bits(a), f32::from_bits(b));
        let (p, q) = (F32::from_bits(a), F32::from_bits(b));
        assert_eq!(p.lt(q), x < y);
        assert_eq!(p.le(q), x <= y);
        assert_eq!(p.isnan(), x.is_nan());
        assert!(same(p.abs(), x.abs()));
        assert!(same(p.neg(), -x));
        if !(x == 0.0 && y == 0.0) {
            assert!(same(p.max(q), x.max(y)), "{a:#x} max {b:#x}");
        }
        if x <= y {
            let c = numbers.encoding();
            assert!(same(F32::from_bits(c).clamp(p, q), f32::from_bits(c).clamp(x, y)));
        }
    }
}

#[test]
fn conversions_agree_with_the_machine() {
    let mut numbers = Numbers { state: 4 };
    for _ in 0..60_000 {
        let a = numbers.encoding();
        assert_eq!(F32::from_bits(a).to_i32(), f32::from_bits(a) as i32, "{a:#x}");
        let n = numbers.next() as i32 >> (numbers.next() % 32);
        assert!(same(F32::from_i32(n), n as f32), "{n}");
    }
    for n in [i32::MIN, i32::MAX, 0, -1, 1, 0x100_0001, -0x100_0003] {
        assert!(same(F32::from_i32(n), n as f32));
    }
}

#[test]
fn sums_round_to_nearest_even() {
    let one = F32::from_bits(1.0f32.to_bits());
    // 2^24 + 1 lies between two numbers: the even one is 2^24.
    let big = F32::from_i32(16_777_216);
    assert_eq!(big.plus(one).to_bits(), 0x4b80_0000);
    // 2^24 + 3 rounds up to 2^24 + 4.
    assert_eq!(big.plus(F32::from_i32(3)).to_bits(), 0x4b80_0002);
    // The largest number and half of its spacing overflow.
    let largest = F32::from_bits(0x7f7f_ffff);
    assert_eq!(largest.plus(F32::from_bits(0x7300_0000)).to_bits(), 0x7f80_0000);
    assert_eq!(largest.plus(F32::from_bits(0x72ff_ffff)).to_bits(), 0x7f7f_ffff);
}

#[test]
fn operations_without_a_result_give_nan() {
    let inf = F32::from_bits(0x7f80_0000);
    let zero = F32::from_bits(0);
    assert!(inf.minus(inf).isnan());
    assert!(inf.times(zero).isnan());
    assert!(F32::from_i32(-1).sqrt().isnan());
    assert_eq!(F32::from_bits(0x8000_0000).sqrt().to_bits(), 0x8000_0000);
}

#[test]
fn integers_of_24_digits_are_exact() {
    let mut numbers = Numbers { state: 5 };
    for _ in 0..20_000 {
        let n = (numbers.next() % 0x200_0001) as i32 - 0x100_0000;
        assert_eq!(F32::from_i32(n).to_i32(), n);
    }
    assert_eq!(F32::from_i32(0x100_0000).to_i32(), 0x100_0000);
    assert_eq!(F32::from_i32(-0x100_0000).to_i32(), -0x100_0000);
    // One digit more, and an odd number is lost.
    assert_eq!(F32::from_i32(0x100_0001).to_i32(), 0x100_0000);
    assert_eq!(F32::from_i32(i32::MAX).to_bits(), 0x4f00_0000);
}

#[test]
fn roots_are_the_nearest_numbers() {
    assert_eq!(F32::from_i32(2).sqrt().to_bits(), 0x3fb5_04f3);
    assert_eq!(F32::from_i32(22_500).sqrt().to_bits(), F32::from_i32(150).to_bits());
    assert_eq!(F32::from_bits(1).sqrt().to_bits(), 0x1a35_04f3);
    let mut numbers = Numbers { state: 6 };
    for _ in 0..20_000 {
        let a = numbers.next() % 0x7f7f_ffff + 1;
        let root = F32::from_bits(a).sqrt().to_bits();
        let exact = f32::from_bits(a) as f64;
        let b = f32::from_bits(root) as f64;
        // The squares of the midpoints to both neighbours, which doubles hold exactly.
        let above = (b + f32::from_bits(root + 1) as f64) / 2.0;
        let below = (b + f32::from_bits(root - 1) as f64) / 2.0;
        assert!(below * below <= exact && exact <= above * above, "{a:#x}");
    }
}
