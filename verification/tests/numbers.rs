use mimir::binary32::{narrow, Binary32};
use mimir::binary64::Binary64;

struct Random(u64);

impl Random {
    fn next(&mut self) -> u64 {
        self.0 ^= self.0 << 13;
        self.0 ^= self.0 >> 7;
        self.0 ^= self.0 << 17;
        self.0
    }

    /// A number from zero to one, also very small ones.
    fn unit(&mut self) -> f64 {
        match self.next() % 8 {
            0 => f64::from_bits(self.next() % 0x3FF0_0000_0000_0001),
            1 => f64::from_bits(self.next() % 0x0020_0000_0000_0000),
            2 => 1.0 - f64::from_bits((self.next() % 0x0340_0000_0000_0000) + 0x0CB0_0000_0000_0000),
            3 => [0.0, 1.0, 0.5, 0.1, 1e-9][(self.next() % 5) as usize],
            _ => (self.next() >> 11) as f64 / (1u64 << 53) as f64,
        }
    }

    /// Any number without sign that is not too large.
    fn positive(&mut self) -> f64 {
        f64::from_bits(self.next() % 0x7FE0_0000_0000_0000)
    }
}

fn num(v: f64) -> Binary64 {
    Binary64 { bits: v.to_bits() }
}

#[test]
fn products_are_rounded_as_the_machine_does() {
    let mut r = Random(1);
    for _ in 0..20_000 {
        let (a, b) = (r.unit(), r.unit());
        assert_eq!(num(a).product(num(b)).bits, (a * b).to_bits(), "{a} * {b}");
        let c = r.positive();
        assert_eq!(num(a).product(num(c)).bits, (a * c).to_bits(), "{a} * {c}");
    }
}

#[test]
fn sums_are_rounded_as_the_machine_does() {
    let mut r = Random(2);
    for _ in 0..20_000 {
        let (a, b) = (r.unit(), r.unit());
        assert_eq!(num(a).sum(num(b)).bits, (a + b).to_bits(), "{a} + {b}");
        let (c, d) = (r.positive(), r.positive());
        assert_eq!(num(c).sum(num(d)).bits, (c + d).to_bits(), "{c} + {d}");
    }
}

#[test]
fn distances_are_rounded_as_the_machine_does() {
    let mut r = Random(3);
    for _ in 0..20_000 {
        let (a, b) = (r.unit(), r.unit());
        assert_eq!(num(a).distance_to(num(b)).bits, (a - b).abs().to_bits(), "{a} - {b}");
        assert_eq!(num(1.0).distance_to(num(a)).bits, (1.0 - a).to_bits(), "1 - {a}");
        let (c, d) = (r.positive(), r.positive());
        assert_eq!(num(c).distance_to(num(d)).bits, (c - d).abs().to_bits(), "{c} - {d}");
    }
}

#[test]
fn quotients_are_rounded_as_the_machine_does() {
    let mut r = Random(4);
    for _ in 0..20_000 {
        let (x, y) = (r.unit(), r.unit());
        let (a, b) = if x <= y { (x, y) } else { (y, x) };
        if b > 0.0 {
            assert_eq!(num(a).quotient_by(num(b)).bits, (a / b).to_bits(), "{a} / {b}");
        }
        let (x, y) = (r.positive(), r.positive());
        let (a, b) = if x <= y { (x, y) } else { (y, x) };
        if b > 0.0 {
            assert_eq!(num(a).quotient_by(num(b)).bits, (a / b).to_bits(), "{a} / {b}");
        }
    }
}

#[test]
fn comparisons_are_those_of_the_machine() {
    let special = [
        0.0,
        -0.0,
        1.0,
        -1.0,
        f64::INFINITY,
        f64::NEG_INFINITY,
        f64::NAN,
        f64::MIN_POSITIVE,
        -f64::MIN_POSITIVE,
        f64::MAX,
        f64::MIN,
        5e-324,
    ];
    for a in special {
        for b in special {
            assert_eq!(num(a).less_than(num(b)), a < b, "{a} < {b}");
            assert_eq!(num(a).at_most(num(b)), a <= b, "{a} <= {b}");
        }
        assert_eq!(num(a).not_a_number(), a.is_nan());
        assert_eq!(num(a).finite(), a.is_finite());
    }
    let mut r = Random(5);
    for _ in 0..20_000 {
        let a = f64::from_bits(r.next());
        let b = f64::from_bits(r.next());
        assert_eq!(num(a).less_than(num(b)), a < b);
        assert_eq!(num(a).at_most(num(b)), a <= b);
    }
}

#[test]
fn single_sums_are_rounded_as_the_machine_does() {
    let mut r = Random(6);
    for _ in 0..20_000 {
        let a = f32::from_bits((r.next() % 0x7F80_0001) as u32);
        let b = f32::from_bits((r.next() % 0x7F80_0001) as u32);
        let s = Binary32 { bits: a.to_bits() }.sum(Binary32 { bits: b.to_bits() });
        assert_eq!(s.bits, (a + b).to_bits(), "{a} + {b}");
        let c = (r.next() >> 40) as f32 / 16_777_216.0;
        let d = (r.next() >> 40) as f32 / 16_777_216.0;
        let t = Binary32 { bits: c.to_bits() }.sum(Binary32 { bits: d.to_bits() });
        assert_eq!(t.bits, (c + d).to_bits(), "{c} + {d}");
    }
}

#[test]
fn shares_of_a_rank_are_rounded_as_the_machine_does() {
    let mut r = Random(7);
    for i in 0..20_000usize {
        let w = [1.0f32, 0.3, 0.1, 0.5][i % 4];
        let rank = if i < 4_000 { i } else { (r.next() >> (i % 64)) as usize };
        let share = Binary32 { bits: w.to_bits() }.over_rank(60, rank);
        assert_eq!(share.bits, (w / (60.0f32 + rank as f32)).to_bits(), "{w} at {rank}");
        let any = f32::from_bits((r.next() % 0x7F80_0000) as u32);
        let share = Binary32 { bits: any.to_bits() }.over_rank(60, rank);
        assert_eq!(share.bits, (any / (60.0f32 + rank as f32)).to_bits(), "{any} at {rank}");
    }
}

#[test]
fn narrowing_is_that_of_the_machine() {
    let mut r = Random(8);
    for _ in 0..20_000 {
        let a = f64::from_bits(r.next());
        if !a.is_nan() {
            assert_eq!(narrow(num(a)), (a as f32).to_bits(), "{a}");
        }
        let b = (r.next() as i64) as f64 / (1u64 << 62) as f64;
        assert_eq!(narrow(num(b)), (b as f32).to_bits(), "{b}");
    }
    assert!(f32::from_bits(narrow(num(f64::NAN))).is_nan());
    assert_eq!(narrow(num(1e300)), f32::INFINITY.to_bits());
}

#[test]
fn checked_sums_are_rounded_as_the_machine_does() {
    let mut r = Random(11);
    for _ in 0..20_000 {
        let a = f64::from_bits(r.next() % 0x7FF0_0000_0000_0000);
        let b = match r.next() % 2 {
            0 => f64::from_bits(r.next() % 0x7FF0_0000_0000_0000),
            _ => f64::from_bits(a.to_bits() ^ (r.next() % 0x0010_0000_0000_0000)),
        };
        let sum = a + b;
        let want = if sum.is_finite() { Some(num(sum)) } else { None };
        assert_eq!(num(a).checked_sum(num(b)), want, "{a} + {b}");
    }
    let greatest = num(f64::MAX);
    assert_eq!(greatest.checked_sum(num(1e291)), Some(greatest));
    assert_eq!(greatest.checked_sum(num(1e292)), None);
    assert_eq!(num(8.98846567431158e307).checked_sum(num(8.98846567431158e307)), None);
}

fn same_single(got: Binary32, want: f32) -> bool {
    let got = f32::from_bits(got.bits);
    got == want || got.is_nan() && want.is_nan()
}

#[test]
fn signed_single_numbers_are_computed_as_the_machine_does() {
    let mut r = Random(12);
    let ends = [0.0f32, -0.0, f32::INFINITY, f32::NEG_INFINITY, f32::NAN, f32::MAX, f32::MIN, 1e-45, -1e-45];
    for i in 0..40_000usize {
        let a = if i % 5 == 0 { ends[i / 5 % 9] } else { f32::from_bits(r.next() as u32) };
        let b = match i % 3 {
            0 => ends[i / 3 % 9],
            1 => f32::from_bits(a.to_bits() ^ 0x8000_0000 ^ (r.next() % 64) as u32),
            _ => f32::from_bits(r.next() as u32),
        };
        let (x, y) = (Binary32 { bits: a.to_bits() }, Binary32 { bits: b.to_bits() });
        assert!(same_single(x.signed_sum(y), a + b), "{a} + {b}");
        let rank = (r.next() >> (i % 64)) as usize;
        assert!(same_single(x.signed_over_rank(60, rank), a / (60.0 + rank as f32)), "{a} at {rank}");
    }
}
