use bms_rs::num::{FinF64, NonNegativeF64, PositiveF64};

/// A small linear congruential generator.
struct Patterns(u64);

impl Patterns {
    fn next(&mut self) -> u64 {
        self.0 = self.0.wrapping_mul(6364136223846793005).wrapping_add(1442695040888963407);
        self.0 ^ (self.0 >> 29)
    }

    /// A non-negative finite number; every third one lies near one.
    fn magnitude(&mut self) -> f64 {
        let bits = self.next();
        let picked = match self.next() % 6 {
            0 | 1 => (bits & 0x000f_ffff_ffff_ffff) | ((1000 + bits % 60) << 52),
            2 => bits & 0x001f_ffff_ffff_ffff,
            3 => ((bits % 64) as f64 / 16.0).to_bits(),
            _ => bits & 0x7fff_ffff_ffff_ffff,
        };
        let x = f64::from_bits(picked);
        if x.is_finite() {
            x
        } else {
            1.0
        }
    }

    fn signed(&mut self) -> f64 {
        let x = self.magnitude();
        if self.next() % 2 == 0 {
            x
        } else {
            -x
        }
    }
}

fn non_negative(x: f64) -> NonNegativeF64 {
    NonNegativeF64::from_bits(x.to_bits()).unwrap()
}

fn finite(x: f64) -> FinF64 {
    FinF64::from_bits(x.to_bits()).unwrap()
}

fn value(x: Option<NonNegativeF64>) -> f64 {
    x.map_or(f64::INFINITY, |v| f64::from_bits(v.to_bits()))
}

#[test]
fn arithmetic_agrees_with_the_machine() {
    let mut patterns = Patterns(42);
    for _ in 0..60000 {
        let a = patterns.magnitude();
        let b = patterns.magnitude();
        assert_eq!(value(non_negative(a).plus(non_negative(b))), a + b, "{a:e} + {b:e}");
        assert_eq!(value(non_negative(a).times(non_negative(b))), a * b, "{a:e} * {b:e}");
        assert_eq!(
            value(Some(non_negative(a).minus_or_zero(non_negative(b)))),
            (a - b).max(0.0),
            "{a:e} - {b:e}"
        );
        if let Some(divisor) = PositiveF64::from_bits(b.to_bits()) {
            assert_eq!(value(non_negative(a).over(divisor)), a / b, "{a:e} / {b:e}");
        }
    }
}

#[test]
fn signed_arithmetic_agrees_with_the_machine() {
    let mut patterns = Patterns(7);
    for _ in 0..60000 {
        let a = patterns.signed();
        let b = patterns.signed();
        let sum = finite(a).plus(finite(b));
        match sum {
            Some(s) => assert_eq!(f64::from_bits(s.to_bits()), a + b, "{a:e} + {b:e}"),
            None => assert!((a + b).is_infinite()),
        }
        let product = finite(a).times(non_negative(b.abs()));
        match product {
            Some(p) => assert_eq!(f64::from_bits(p.to_bits()), a * b.abs(), "{a:e} * {b:e}"),
            None => assert!((a * b).is_infinite()),
        }
    }
}

#[test]
fn whole_numbers_agree_with_the_machine() {
    let mut patterns = Patterns(3);
    for _ in 0..60000 {
        let shift = patterns.next() % 64;
        let n = patterns.next() >> shift;
        assert_eq!(value(Some(NonNegativeF64::from_int(n))), n as f64);
    }
    assert_eq!(value(Some(NonNegativeF64::from_int(u64::MAX))), u64::MAX as f64);
    assert_eq!(PositiveF64::from_int(0), None);
}

#[test]
fn signs_and_limits() {
    assert_eq!(NonNegativeF64::from_bits((-0.0f64).to_bits()), Some(NonNegativeF64::zero()));
    assert_eq!(NonNegativeF64::from_bits((-1.0f64).to_bits()), None);
    assert_eq!(NonNegativeF64::from_bits(f64::INFINITY.to_bits()), None);
    assert_eq!(NonNegativeF64::from_bits(f64::NAN.to_bits()), None);
    assert_eq!(NonNegativeF64::largest().to_bits(), f64::MAX.to_bits());
    assert_eq!(PositiveF64::from_bits(0), None);
    assert_eq!(FinF64::from_bits(f64::NEG_INFINITY.to_bits()), None);
    assert_eq!(finite(-2.5).to_bits(), (-2.5f64).to_bits());
    assert_eq!(finite(-2.5).to_non_negative(), None);
    assert_eq!(finite(2.5).to_non_negative(), Some(non_negative(2.5)));
    assert_eq!(NonNegativeF64::largest().plus(NonNegativeF64::largest()), None);
    assert_eq!(FinF64::largest().to_bits(), f64::MAX.to_bits());
    assert_eq!(f64::from_bits(FinF64::minus_one().to_bits()), -1.0);
}
