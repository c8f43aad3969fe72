use rude_core::engine::double::{rounded, Double};

const NUMBERS: [u64; 14] = [
    0,
    1,
    2,
    3,
    7,
    10,
    1_000_000_007,
    0x1F_FFFF_FFFF_FFFF,
    0x20_0000_0000_0001, // a tie, to the even number below
    0x20_0000_0000_0003, // a tie, to the even number above
    0x40_0000_0000_0003,
    0x8000_0000_0000_0400,
    u64::MAX - 1024,
    u64::MAX,
];

fn double(n: u64) -> Double {
    Double::from_whole(n as u128)
}

#[test]
fn whole_numbers_are_rounded() {
    for n in NUMBERS {
        assert_eq!(double(n).whole(), (n as f64) as u64);
        assert_eq!(rounded(n), (n as f64) as u128);
    }
    assert_eq!(double(0x20_0000_0000_0001).whole(), 0x20_0000_0000_0000);
    assert_eq!(double(0x20_0000_0000_0003).whole(), 0x20_0000_0000_0004);
    assert_eq!(rounded(u64::MAX), 1 << 64);
}

#[test]
fn results_are_rounded() {
    for a in NUMBERS {
        for b in NUMBERS {
            let (x, y) = (a as f64, b as f64);
            assert_eq!(double(a).plus(double(b)).whole(), (x + y) as u64);
            assert_eq!(double(a).times(double(b)).whole(), (x * y) as u64);
            if b != 0 {
                assert_eq!(double(a).over(double(b)).whole(), (x / y) as u64);
                // the last digits count, when they are multiplied up again
                for c in NUMBERS {
                    let scaled = double(a).over(double(b)).times(double(c));
                    assert_eq!(scaled.whole(), (x / y * c as f64) as u64);
                }
            }
        }
    }
}

#[test]
fn fractions_are_exact() {
    for a in NUMBERS {
        for b in [1u64, 3, 7, 100, 4096, 1_000_000_007] {
            let x = a as f64 / b as f64;
            let part = double(a).over(double(b)).fraction();
            assert_eq!(part.is_zero(), x.fract() == 0.0);
            let shifted = part.times(double(1 << 62)).whole();
            assert_eq!(shifted, (x.fract() * 4611686018427387904.0) as u64);
        }
    }
}
