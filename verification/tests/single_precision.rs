//! The arithmetic of `F32` against the processor's.
use backdrop::single::F32;

fn soft(value: f32) -> F32 {
    F32::from_bits(value.to_bits())
}

fn hard(value: F32) -> f32 {
    f32::from_bits(value.to_bits())
}

fn agree(actual: F32, expected: f32, what: &str) {
    let same = if expected.is_nan() {
        hard(actual).is_nan()
    } else {
        actual.to_bits() == expected.to_bits()
    };
    assert!(same, "{}: {:?} instead of {:?}", what, hard(actual), expected);
}

fn edge_values() -> Vec<f32> {
    let patterns: [u32; 38] = [
        0, 1, 2, 3, 0x7f_fffe, 0x7f_ffff, 0x80_0000, 0x80_0001, 0xff_ffff, 0x100_0000,
        0x100_0001, 0x3300_0000, 0x3380_0000, 0x3380_0001, 0x3effffff, 0x3f00_0000, 0x3f00_0001,
        0x3f7f_ffff, 0x3f80_0000, 0x3f80_0001, 0x3fc0_0000, 0x4000_0000, 0x4040_0000, 0x4049_0fdb,
        0x42c8_0000, 0x4aff_ffff, 0x4b00_0000, 0x4b00_0001, 0x4b7f_ffff, 0x4b80_0000, 0x4b80_0001,
        0x4f7f_ffff, 0x4f80_0000, 0x7e80_0000, 0x7f00_0000, 0x7f7f_fffe, 0x7f7f_ffff, 0x7f80_0000,
    ];
    let mut values: Vec<f32> = Vec::new();
    for pattern in patterns.iter() {
        values.push(f32::from_bits(*pattern));
        values.push(f32::from_bits(*pattern | 0x8000_0000));
    }
    values.push(f32::NAN);
    values
}

struct Random(u64);

impl Random {
    fn next(&mut self) -> u32 {
        self.0 = self.0.wrapping_mul(6364136223846793005).wrapping_add(1442695040888963407);
        (self.0 >> 32) as u32
    }

    /// Any bits, or a value of ordinary size.
    fn value(&mut self) -> f32 {
        let bits = self.next();
        match self.next() % 3 {
            0 => f32::from_bits(bits),
            1 => (bits as i32) as f32 / 65536.0,
            _ => f32::from_bits((bits & 0x81ff_ffff) | 0x3e00_0000),
        }
    }
}

fn pairs() -> Vec<(f32, f32)> {
    let edges = edge_values();
    let mut pairs: Vec<(f32, f32)> = Vec::new();
    for a in edges.iter() {
        for b in edges.iter() {
            pairs.push((*a, *b));
        }
    }
    let mut random = Random(7);
    for _ in 0..60000 {
        let a = random.value();
        let b = random.value();
        pairs.push((a, b));
        // Neighbours, where cancellation leaves little.
        pairs.push((a, f32::from_bits(a.to_bits().wrapping_add(random.next() % 5))));
    }
    pairs
}

#[test]
fn addition_rounds_as_the_processor_does() {
    for (a, b) in pairs() {
        agree(soft(a).plus(soft(b)), a + b, &format!("{:?} + {:?}", a, b));
        agree(soft(a).minus(soft(b)), a - b, &format!("{:?} - {:?}", a, b));
    }
}

#[test]
fn multiplication_rounds_as_the_processor_does() {
    for (a, b) in pairs() {
        agree(soft(a).times(soft(b)), a * b, &format!("{:?} * {:?}", a, b));
    }
}

#[test]
fn division_rounds_as_the_processor_does() {
    for (a, b) in pairs() {
        agree(soft(a).over(soft(b)), a / b, &format!("{:?} / {:?}", a, b));
    }
}

#[test]
fn comparison_is_the_processors() {
    for (a, b) in pairs() {
        assert_eq!(soft(a).lt(soft(b)), a < b, "{:?} < {:?}", a, b);
        assert_eq!(soft(a).le(soft(b)), a <= b, "{:?} <= {:?}", a, b);
        let max = hard(soft(a).max(soft(b)));
        let min = hard(soft(a).min(soft(b)));
        assert!(max == a.max(b) || (max.is_nan() && a.max(b).is_nan()));
        assert!(min == a.min(b) || (min.is_nan() && a.min(b).is_nan()));
    }
}

#[test]
fn whole_numbers_are_the_processors() {
    let mut values = edge_values();
    let mut random = Random(11);
    for _ in 0..60000 {
        values.push(random.value());
    }
    for a in values {
        agree(soft(a).floor(), a.floor(), &format!("floor {:?}", a));
        agree(soft(a).ceil(), a.ceil(), &format!("ceil {:?}", a));
        agree(soft(a).neg(), -a, &format!("-{:?}", a));
        assert_eq!(soft(a).to_u32(), a as u32, "{:?} as u32", a);
        assert_eq!(soft(a).is_finite(), a.is_finite());
        assert_eq!(soft(a).is_infinite(), a.is_infinite());
        assert_eq!(soft(a).is_nan(), a.is_nan());
        if !a.is_nan() {
            agree(soft(a).clamp(soft(1.), soft(64.)), a.clamp(1., 64.), "clamp");
        }
    }
}

#[test]
fn integers_convert_as_the_processor_does() {
    let mut random = Random(13);
    for n in 0..5000u32 {
        agree(F32::from_u32(n), n as f32, "small");
        agree(F32::from_u32(u32::MAX - n), (u32::MAX - n) as f32, "large");
        agree(F32::from_u32(0x100_0000 + n), (0x100_0000 + n) as f32, "past 24 bits");
        let m = random.next();
        agree(F32::from_u32(m), m as f32, "any");
    }
}

#[test]
fn sums_overflow_half_a_place_past_the_largest() {
    let max = f32::MAX;
    let half_place = f32::from_bits(0x7300_0000 - 1);
    assert!(soft(max).plus(soft(half_place)).is_finite());
    assert!(!soft(max).plus(soft(f32::from_bits(0x7300_0000))).is_finite());
    assert!(!soft(max).plus(soft(max)).is_finite());
}
