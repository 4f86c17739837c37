use quran_asr_api::scalar::Scalar;
use quran_asr_api::text::format_timestamp;

#[derive(Clone, Copy, Debug, PartialEq)]
struct Real(f64);

impl Scalar for Real {
    fn whole(n: u64) -> Self {
        Real(n as f64)
    }
    fn milli(n: u64) -> Self {
        Real(n as f64 / 1000.0)
    }
    fn plus(self, other: Self) -> Self {
        Real(self.0 + other.0)
    }
    fn minus(self, other: Self) -> Self {
        Real(self.0 - other.0)
    }
    fn times(self, other: Self) -> Self {
        Real(self.0 * other.0)
    }
    fn over(self, other: Self) -> Self {
        Real(self.0 / other.0)
    }
    fn below(self, other: Self) -> bool {
        self.0 < other.0
    }
    fn is_finite(self) -> bool {
        self.0.is_finite()
    }
    fn trunc_u64(self) -> u64 {
        self.0 as u64
    }
    fn ceil_u64(self) -> u64 {
        self.0.ceil() as u64
    }
    fn round_i64(self) -> i64 {
        self.0.round() as i64
    }
}

#[test]
fn real_numbers_can_be_used() {
    assert_eq!(format_timestamp(Real(3723.0045)), "01:02:03.005");
    assert_eq!(format_timestamp(Real(0.0004)), "00:00:00.000");
    assert_eq!(Real::milli(750), Real(0.75));
    assert_eq!(Real::milli(1200), Real(1.2));
}
