use windows_rs_telemetry::double::Double;
use windows_rs_telemetry::single::Single;

fn d(x: f64) -> Double {
    Double { bits: x.to_bits() }
}

fn f(x: Double) -> f64 {
    f64::from_bits(x.bits)
}

fn s(x: f32) -> Single {
    Single { bits: x.to_bits() }
}

struct Numbers {
    state: u64,
}

impl Numbers {
    fn next(&mut self) -> u64 {
        self.state = self
            .state
            .wrapping_mul(6364136223846793005)
            .wrapping_add(1442695040888963407);
        self.state ^ (self.state >> 29)
    }

    /// A finite number that is not negative.
    fn double(&mut self) -> f64 {
        loop {
            let x = f64::from_bits(self.next() & 0x7fff_ffff_ffff_ffff);
            if x.is_finite() {
                return x;
            }
        }
    }

    /// A number of everyday size.
    fn everyday(&mut self) -> f64 {
        (self.next() >> 11) as f64 / 2.0_f64.powi((self.next() % 70) as i32)
    }

    fn single(&mut self) -> f32 {
        loop {
            let x = f32::from_bits((self.next() >> 33) as u32);
            if x.is_finite() {
                return x;
            }
        }
    }
}

#[test]
fn whole_numbers_round_as_the_hardware_does() {
    let mut numbers = Numbers { state: 1 };
    for i in 0..2000 {
        let n = numbers.next() >> (i % 64);
        assert_eq!(Double::from_u64(n).bits, d(n as f64).bits);
        assert_eq!(Single::from_u64(n).bits, s(n as f32).bits);
    }
    assert_eq!(Double::from_u64(u64::MAX).bits, d(u64::MAX as f64).bits);
    assert_eq!(Single::from_u64(u64::MAX).bits, s(u64::MAX as f32).bits);
    assert_eq!(Double::from_u64((1 << 53) + 1).bits, d(9007199254740992.0).bits);
}

#[test]
fn double_arithmetic_is_that_of_the_hardware() {
    let mut numbers = Numbers { state: 2 };
    for i in 0..4000 {
        let (a, b) = if i % 2 == 0 {
            (numbers.double(), numbers.double())
        } else {
            (numbers.everyday(), numbers.everyday())
        };
        assert_eq!(d(a).increase(d(b)).bits, d(a + b).bits);
        assert_eq!(d(a).subtract(d(b)).bits, d(a - b).bits);
        assert_eq!(d(a).multiplied_by(d(b)).bits, d(a * b).bits);
        assert_eq!(d(-a).multiplied_by(d(b)).bits, d(-a * b).bits);
        if b > 0.0 {
            assert_eq!(d(a).divided_by(d(b)).bits, d(a / b).bits);
            assert_eq!(d(a).divided_by(d(-b)).bits, d(a / -b).bits);
        }
        assert_eq!(d(a).less_than(d(b)), a < b);
        assert_eq!(d(-a).less_than(d(b)), -a < b);
        assert_eq!(d(-a).no_more_than(d(-b)), -a <= -b);
    }
}

#[test]
fn special_doubles_behave() {
    let inf = f64::INFINITY;
    assert_eq!(d(inf).divided_by(d(2.0)).bits, d(inf).bits);
    assert_eq!(d(1.0).divided_by(d(0.0)).bits, d(inf).bits);
    assert_eq!(d(1.0).divided_by(d(inf)).bits, d(0.0).bits);
    assert_eq!(d(inf).multiplied_by(d(-2.0)).bits, d(-inf).bits);
    assert!(f(d(inf).multiplied_by(d(0.0))).is_nan());
    assert!(f(d(0.0).divided_by(d(0.0))).is_nan());
    assert!(f(d(f64::NAN).multiplied_by(d(1.0))).is_nan());
    assert!(!d(f64::NAN).less_than(d(1.0)));
    assert!(!d(1.0).no_more_than(d(f64::NAN)));
    assert!(d(0.0).no_more_than(d(-0.0)) && d(-0.0).no_more_than(d(0.0)));
    assert!(!d(-0.0).less_than(d(0.0)));
    assert!(d(-inf).less_than(d(f64::MIN)));
    assert!(d(1.0).finite() && !d(inf).finite() && !d(f64::NAN).finite());
    let tiny = f64::from_bits(1);
    assert_eq!(d(tiny).divided_by(d(2.0)).bits, d(tiny / 2.0).bits);
    assert_eq!(d(tiny).increase(d(1.0)).bits, d(1.0).bits);
}

#[test]
fn single_arithmetic_is_that_of_the_hardware() {
    let mut numbers = Numbers { state: 3 };
    for _ in 0..4000 {
        let (a, b) = (numbers.single(), numbers.single());
        assert_eq!(s(a).increase(s(b)).bits, s(a + b).bits);
        assert_eq!(s(a).subtract(s(b)).bits, s(a - b).bits);
        assert_eq!(s(a).multiplied_by(s(b)).bits, s(a * b).bits);
        if b > 0.0 {
            assert_eq!(s(a).divided_by(s(b)).bits, s(a / b).bits);
        }
        assert_eq!(s(a).less_than(s(b)), a < b);
        assert_eq!(s(-a).no_more_than(s(b)), -a <= b);
    }
    assert!(!s(f32::NAN).no_more_than(s(1.0)));
    assert!(!s(1.0).less_than(s(f32::NAN)));
}

#[test]
fn precision_changes_are_those_of_the_hardware() {
    let mut numbers = Numbers { state: 4 };
    for _ in 0..4000 {
        let a = numbers.double();
        assert_eq!(Single::from_double(d(a)).bits, s(a as f32).bits);
        assert_eq!(Single::from_double(d(-a)).bits, s(-a as f32).bits);
        let b = numbers.everyday();
        assert_eq!(Single::from_double(d(b)).bits, s(b as f32).bits);
        let c = numbers.single();
        assert_eq!(s(c).to_double().bits, d(c as f64).bits);
        assert_eq!(s(-c).to_double().bits, d(-c as f64).bits);
    }
    assert_eq!(Single::from_double(d(f64::INFINITY)).bits, s(f32::INFINITY).bits);
    assert_eq!(s(f32::NEG_INFINITY).to_double().bits, d(f64::NEG_INFINITY).bits);
    assert!(f(s(f32::NAN).to_double()).is_nan());
    assert!(f32::from_bits(Single::from_double(d(f64::NAN)).bits).is_nan());
    assert_eq!(Single::from_double(d(f64::MAX)).bits, s(f32::INFINITY).bits);
}

#[test]
fn fixed_places_are_those_of_the_standard_library() {
    let mut numbers = Numbers { state: 5 };
    for i in 0..1500 {
        let x = if i % 10 == 0 {
            numbers.double()
        } else {
            numbers.everyday()
        };
        assert_eq!(d(x).to_fixed(10, false), format!("{:.1}", x));
        assert_eq!(d(x).to_fixed(100, false), format!("{:.2}", x));
        assert_eq!(d(-x).to_fixed(100, true), format!("{:+.2}", -x));
        assert_eq!(d(x).to_fixed(100, true), format!("{:+.2}", x));
    }
    for x in [0.25, 0.35, 0.05, 0.15, 2.5, 0.125, 0.375, 1.005, 0.995, 9.995, 99.95, 0.0] {
        assert_eq!(d(x).to_fixed(10, false), format!("{:.1}", x));
        assert_eq!(d(x).to_fixed(100, false), format!("{:.2}", x));
    }
}

#[test]
fn special_numbers_are_written_as_the_standard_library_does() {
    for x in [f64::NAN, f64::INFINITY, f64::NEG_INFINITY, -0.0, -0.04] {
        assert_eq!(d(x).to_fixed(10, false), format!("{:.1}", x));
        assert_eq!(d(x).to_fixed(100, true), format!("{:+.2}", x));
    }
}

#[test]
fn equality_is_that_of_the_hardware() {
    let doubles = [0.0, -0.0, 1.0, -1.0, f64::NAN, f64::INFINITY, f64::NEG_INFINITY, 1e-310];
    for a in doubles {
        for b in doubles {
            assert_eq!(d(a) == d(b), a == b);
            assert_eq!(d(a) != d(b), a != b);
        }
    }
    let singles = [0.0, -0.0, 1.0, -1.0, f32::NAN, f32::INFINITY, f32::NEG_INFINITY, 1e-40];
    for a in singles {
        for b in singles {
            assert_eq!(s(a) == s(b), a == b);
        }
    }
}
