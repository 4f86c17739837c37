//! Numbers with a total order, on which times, costs and scores are computed.
//!
//! The alignment and streaming logic only adds, subtracts, multiplies, divides
//! and compares. It is written once over [`Scalar`], so that what it computes is
//! fixed down to the order of the operations, whatever the number type rounds.

use vstd::prelude::*;

verus! {

/// A number. `rank` is its place in the order of all numbers of the type: two
/// numbers compare as their ranks do. A type with incomparable values (such as
/// a not-a-number) has to keep them out or give them a place.
///
/// The models of the operations stand for nothing here: a verified type gives each
/// its own, and nothing is known of another type's but that its operations follow
/// them.
pub trait Scalar: Copy + Send + Sync {
    /// Place in the order.
    closed spec fn rank(self) -> int {
        arbitrary()
    }

    /// The whole number `n`.
    closed spec fn whole_spec(n: nat) -> Self {
        arbitrary()
    }

    /// `n` thousandths.
    closed spec fn milli_spec(n: nat) -> Self {
        arbitrary()
    }

    closed spec fn plus_spec(self, other: Self) -> Self {
        arbitrary()
    }

    closed spec fn minus_spec(self, other: Self) -> Self {
        arbitrary()
    }

    closed spec fn times_spec(self, other: Self) -> Self {
        arbitrary()
    }

    closed spec fn over_spec(self, other: Self) -> Self {
        arbitrary()
    }

    /// Neither infinite nor undefined.
    closed spec fn finite_spec(self) -> bool {
        arbitrary()
    }

    /// The number cut to a whole number that a `u64` holds.
    closed spec fn trunc_u64_spec(self) -> u64 {
        arbitrary()
    }

    /// The number rounded up to a whole number that a `u64` holds.
    closed spec fn ceil_u64_spec(self) -> u64 {
        arbitrary()
    }

    /// The number rounded, half away from zero, to a whole number that an
    /// `i64` holds.
    closed spec fn round_i64_spec(self) -> i64 {
        arbitrary()
    }

    fn whole(n: u64) -> (r: Self)
        ensures
            r == Self::whole_spec(n as nat),
    ;

    fn milli(n: u64) -> (r: Self)
        ensures
            r == Self::milli_spec(n as nat),
    ;

    fn plus(self, other: Self) -> (r: Self)
        ensures
            r == self.plus_spec(other),
    ;

    fn minus(self, other: Self) -> (r: Self)
        ensures
            r == self.minus_spec(other),
    ;

    fn times(self, other: Self) -> (r: Self)
        ensures
            r == self.times_spec(other),
    ;

    fn over(self, other: Self) -> (r: Self)
        ensures
            r == self.over_spec(other),
    ;

    fn below(self, other: Self) -> (r: bool)
        ensures
            r == (self.rank() < other.rank()),
    ;

    fn is_finite(self) -> (r: bool)
        ensures
            r == self.finite_spec(),
    ;

    fn trunc_u64(self) -> (r: u64)
        ensures
            r == self.trunc_u64_spec(),
    ;

    fn ceil_u64(self) -> (r: u64)
        ensures
            r == self.ceil_u64_spec(),
    ;

    fn round_i64(self) -> (r: i64)
        ensures
            r == self.round_i64_spec(),
    ;
}

/// Adding the same number on the right keeps the order.
pub open spec fn sums_keep_order<S: Scalar>() -> bool {
    forall|a: S, b: S, c: S|
        a.rank() <= b.rank() ==> (#[trigger] a.plus_spec(c)).rank() <= (#[trigger] b.plus_spec(c)).rank()
}

/// Small numbers are finite, thousandths come in their order, and a thousand of them
/// make one.
pub open spec fn small_numbers_are_ordered<S: Scalar>() -> bool {
    &&& forall|m: nat| m <= 1_000_000 ==> (#[trigger] S::milli_spec(m)).finite_spec()
    &&& forall|m: nat| m <= 1_000 ==> (#[trigger] S::whole_spec(m)).finite_spec()
    &&& forall|m: nat| m <= 1_000 ==> (#[trigger] S::whole_spec(m)).rank() == S::milli_spec(1_000 * m).rank()
    &&& forall|m: nat, n: nat|
        m < n <= 1_000_000 ==> (#[trigger] S::milli_spec(m)).rank() < (#[trigger] S::milli_spec(n)).rank()
}

/// Whole numbers come in their order, and different ones up to a million millions are
/// told apart.
pub open spec fn counts_are_ordered<S: Scalar>() -> bool {
    &&& forall|m: nat, n: nat|
        m <= n ==> (#[trigger] S::whole_spec(m)).rank() <= (#[trigger] S::whole_spec(n)).rank()
    &&& forall|m: nat, n: nat|
        m < n <= 1_000_000_000_000 ==> (#[trigger] S::whole_spec(m)).rank() < (#[trigger] S::whole_spec(n)).rank()
}

/// A finite number over one half has a finite half that is smaller, and its double is
/// no smaller.
pub open spec fn halves_are_smaller<S: Scalar>() -> bool {
    forall|x: S|
        #![trigger x.over_spec(S::whole_spec(2))]
        #![trigger x.times_spec(S::whole_spec(2))]
        x.finite_spec() && S::milli_spec(500).rank() < x.rank() ==> {
            &&& x.over_spec(S::whole_spec(2)).finite_spec()
            &&& x.over_spec(S::whole_spec(2)).rank() < x.rank()
            &&& x.rank() <= x.times_spec(S::whole_spec(2)).rank()
        }
}

/// Between zero and one.
pub open spec fn is_share<S: Scalar>(x: S) -> bool {
    S::whole_spec(0).rank() <= x.rank() <= S::whole_spec(1).rank()
}

/// The quotient of a count and one that is no smaller lies between zero and one, and
/// is one for equal counts.
pub open spec fn counts_make_shares<S: Scalar>() -> bool {
    forall|m: nat, n: nat|
        m <= n && 0 < n ==> {
            &&& is_share(#[trigger] S::whole_spec(m).over_spec(S::whole_spec(n)))
            &&& m == n ==> S::whole_spec(m).over_spec(S::whole_spec(n)).rank() == S::whole_spec(1).rank()
        }
}

/// A product of numbers between zero and one is no more than either. Sums of numbers
/// that are not negative are not negative, and grow with what is summed. Divided by
/// some thousandths, a number that is not negative stays so.
pub open spec fn shares_combine<S: Scalar>() -> bool {
    let zero = S::whole_spec(0).rank();
    &&& forall|a: S, b: S|
        is_share(a) && is_share(b) ==> zero <= (#[trigger] a.times_spec(b)).rank() <= a.rank()
            && a.times_spec(b).rank() <= b.rank()
    &&& forall|a: S, b: S, c: S, d: S|
        zero <= a.rank() <= b.rank() && zero <= c.rank() <= d.rank() ==> zero <= (#[trigger] a.plus_spec(c)).rank()
            <= (#[trigger] b.plus_spec(d)).rank()
    &&& forall|a: S, n: nat|
        zero <= a.rank() && 0 < n ==> zero <= (#[trigger] a.over_spec(S::milli_spec(n))).rank()
}

/// The larger number; the first where they rank alike.
pub open spec fn max_spec<S: Scalar>(a: S, b: S) -> S {
    if a.rank() < b.rank() {
        b
    } else {
        a
    }
}

/// The smaller number; the first where they rank alike.
pub open spec fn min_spec<S: Scalar>(a: S, b: S) -> S {
    if b.rank() < a.rank() {
        b
    } else {
        a
    }
}

/// The number nearest to `x` between `lo` and `hi`.
pub open spec fn clamp_spec<S: Scalar>(x: S, lo: S, hi: S) -> S {
    if x.rank() < lo.rank() {
        lo
    } else if hi.rank() < x.rank() {
        hi
    } else {
        x
    }
}

pub fn max_of<S: Scalar>(a: S, b: S) -> (r: S)
    ensures
        r == max_spec(a, b),
{
    if a.below(b) {
        b
    } else {
        a
    }
}

pub fn min_of<S: Scalar>(a: S, b: S) -> (r: S)
    ensures
        r == min_spec(a, b),
{
    if b.below(a) {
        b
    } else {
        a
    }
}

pub fn clamp_to<S: Scalar>(x: S, lo: S, hi: S) -> (r: S)
    ensures
        r == clamp_spec(x, lo, hi),
{
    if x.below(lo) {
        lo
    } else if hi.below(x) {
        hi
    } else {
        x
    }
}

/// A clamped number lies between its bounds.
pub proof fn law_clamp_stays_between<S: Scalar>(x: S, lo: S, hi: S)
    requires
        lo.rank() <= hi.rank(),
    ensures
        lo.rank() <= clamp_spec(x, lo, hi).rank() <= hi.rank(),
{
}

/// A fixed-point number: a count of thousandths that stays within `i64`.
/// Results out of range become the nearest end of the range.
#[derive(Clone, Copy, Debug, PartialEq, Eq, Structural)]
pub struct Thousandths {
    pub count: i64,
}

/// The nearest value of an `i64`.
pub open spec fn nearest_i64(x: int) -> i64 {
    if x > i64::MAX {
        i64::MAX
    } else if x < i64::MIN {
        i64::MIN
    } else {
        x as i64
    }
}

fn narrow(x: i128) -> (r: i64)
    ensures
        r == nearest_i64(x as int),
{
    if x > i64::MAX as i128 {
        i64::MAX
    } else if x < i64::MIN as i128 {
        i64::MIN
    } else {
        x as i64
    }
}

/// The quotient rounded down, for a positive divisor.
fn floor_div(a: i128, b: i128) -> (r: i128)
    requires
        0 < b <= 0x8000_0000_0000_0000,
        -0x4000_0000_0000_0000_0000_0000_0000_0000 <= a <= 0x4000_0000_0000_0000_0000_0000_0000_0000,
    ensures
        r == (a as int) / (b as int),
{
    if a >= 0 {
        a / b
    } else {
        let p: i128 = -a;
        let up: i128 = (p + (b - 1)) / b;
        proof {
            let n = p as int + (b as int - 1);
            let q = up as int;
            let d = b as int;
            assert(n == q * d + n % d && 0 <= n % d < d) by (nonlinear_arith)
                requires
                    q == n / d,
                    d > 0,
            ;
            assert((a as int) / d == -q) by (nonlinear_arith)
                requires
                    d > 0,
                    n == -(a as int) + (d - 1),
                    n == q * d + n % d,
                    0 <= n % d < d,
            ;
            assert(0 <= up <= n) by (nonlinear_arith)
                requires
                    n == q * d + n % d,
                    0 <= n % d < d,
                    d > 0,
                    n >= 0,
                    up as int == q,
            ;
        }
        -up
    }
}

impl Scalar for Thousandths {
    open spec fn rank(self) -> int {
        self.count as int
    }

    open spec fn whole_spec(n: nat) -> Self {
        Thousandths { count: nearest_i64(n as int * 1000) }
    }

    open spec fn milli_spec(n: nat) -> Self {
        Thousandths { count: nearest_i64(n as int) }
    }

    open spec fn plus_spec(self, other: Self) -> Self {
        Thousandths { count: nearest_i64(self.count + other.count) }
    }

    open spec fn minus_spec(self, other: Self) -> Self {
        Thousandths { count: nearest_i64(self.count - other.count) }
    }

    open spec fn times_spec(self, other: Self) -> Self {
        Thousandths { count: nearest_i64((self.count * other.count) / 1000) }
    }

    /// Division by zero gives the end of the range on the dividend's side.
    open spec fn over_spec(self, other: Self) -> Self {
        let a = self.count * 1000;
        let b = other.count as int;
        Thousandths {
            count: if b > 0 {
                nearest_i64(a / b)
            } else if b < 0 {
                nearest_i64((-a) / (-b))
            } else if a > 0 {
                i64::MAX
            } else if a < 0 {
                i64::MIN
            } else {
                0
            },
        }
    }

    open spec fn finite_spec(self) -> bool {
        true
    }

    open spec fn trunc_u64_spec(self) -> u64 {
        if self.count < 0 {
            0
        } else {
            (self.count as int / 1000) as u64
        }
    }

    open spec fn ceil_u64_spec(self) -> u64 {
        if self.count < 0 {
            0
        } else {
            ((self.count + 999) / 1000) as u64
        }
    }

    open spec fn round_i64_spec(self) -> i64 {
        if self.count >= 0 {
            ((self.count + 500) / 1000) as i64
        } else {
            (-((500 - self.count) / 1000)) as i64
        }
    }

    fn whole(n: u64) -> (r: Self) {
        Thousandths { count: narrow(n as i128 * 1000) }
    }

    fn milli(n: u64) -> (r: Self) {
        Thousandths { count: narrow(n as i128) }
    }

    fn plus(self, other: Self) -> (r: Self) {
        Thousandths { count: narrow(self.count as i128 + other.count as i128) }
    }

    fn minus(self, other: Self) -> (r: Self) {
        Thousandths { count: narrow(self.count as i128 - other.count as i128) }
    }

    fn times(self, other: Self) -> (r: Self) {
        proof {
            lemma_product_fits(self.count, other.count);
        }
        Thousandths { count: narrow(floor_div(self.count as i128 * other.count as i128, 1000)) }
    }

    fn over(self, other: Self) -> (r: Self) {
        let a: i128 = self.count as i128 * 1000;
        let b: i128 = other.count as i128;
        if b > 0 {
            Thousandths { count: narrow(floor_div(a, b)) }
        } else if b < 0 {
            Thousandths { count: narrow(floor_div(-a, -b)) }
        } else if a > 0 {
            Thousandths { count: i64::MAX }
        } else if a < 0 {
            Thousandths { count: i64::MIN }
        } else {
            Thousandths { count: 0 }
        }
    }

    fn below(self, other: Self) -> (r: bool) {
        self.count < other.count
    }

    fn is_finite(self) -> (r: bool) {
        true
    }

    fn trunc_u64(self) -> (r: u64) {
        if self.count < 0 {
            0
        } else {
            (self.count / 1000) as u64
        }
    }

    fn ceil_u64(self) -> (r: u64) {
        if self.count < 0 {
            0
        } else {
            ((self.count as i128 + 999) / 1000) as u64
        }
    }

    fn round_i64(self) -> (r: i64) {
        let c: i128 = self.count as i128;
        if c >= 0 {
            ((c + 500) / 1000) as i64
        } else {
            (-((500 - c) / 1000)) as i64
        }
    }
}

/// Sums of thousandths keep the order.
pub proof fn law_sums_of_thousandths_keep_order()
    ensures
        sums_keep_order::<Thousandths>(),
{
}

/// Small counts of thousandths are ordered.
pub proof fn law_small_thousandths_are_ordered()
    ensures
        small_numbers_are_ordered::<Thousandths>(),
{
}

/// Counts in thousandths are ordered.
pub proof fn law_counts_in_thousandths_are_ordered()
    ensures
        counts_are_ordered::<Thousandths>(),
{
}

/// Halves of thousandths are smaller.
pub proof fn law_halves_of_thousandths_are_smaller()
    ensures
        halves_are_smaller::<Thousandths>(),
{
}

/// Counts make shares of thousandths.
pub proof fn law_counts_make_thousandths()
    ensures
        counts_make_shares::<Thousandths>(),
{
    assert forall|m: nat, n: nat| m <= n && 0 < n implies {
        &&& is_share(#[trigger] Thousandths::whole_spec(m).over_spec(Thousandths::whole_spec(n)))
        &&& m == n ==> Thousandths::whole_spec(m).over_spec(Thousandths::whole_spec(n)).rank()
            == Thousandths::whole_spec(1).rank()
    } by {
        let a = Thousandths::whole_spec(m).count as int;
        let b = Thousandths::whole_spec(n).count as int;
        assert(0 <= a <= b && 0 < b);
        assert(0 <= (a * 1000) / b <= 1000) by (nonlinear_arith)
            requires
                0 <= a <= b,
                0 < b,
        ;
        assert(a == b ==> (a * 1000) / b == 1000) by (nonlinear_arith)
            requires
                0 < b,
        ;
    }
}

/// Shares of thousandths combine to shares.
pub proof fn law_shares_of_thousandths_combine()
    ensures
        shares_combine::<Thousandths>(),
{
    assert forall|a: Thousandths, b: Thousandths| is_share(a) && is_share(b) implies 0 <= (#[trigger] a.times_spec(
        b,
    )).rank() <= a.rank() && a.times_spec(b).rank() <= b.rank() by {
        let x = a.count as int;
        let y = b.count as int;
        assert(0 <= x * y && (x * y) / 1000 <= x && (x * y) / 1000 <= y && 0 <= (x * y) / 1000) by (nonlinear_arith)
            requires
                0 <= x <= 1000,
                0 <= y <= 1000,
        ;
    }
    assert forall|a: Thousandths, n: nat| 0 <= a.rank() && 0 < n implies 0 <= (#[trigger] a.over_spec(
        Thousandths::milli_spec(n),
    )).rank() by {
        let x = a.count * 1000;
        let y = Thousandths::milli_spec(n).count as int;
        assert(0 <= x / y) by (nonlinear_arith)
            requires
                0 <= x,
                0 < y,
        ;
    }
}

proof fn lemma_product_fits(a: i64, b: i64)
    ensures
        -0x4000_0000_0000_0000_0000_0000_0000_0000 <= a * b <= 0x4000_0000_0000_0000_0000_0000_0000_0000,
{
    assert(-0x4000_0000_0000_0000_0000_0000_0000_0000 <= a * b
        <= 0x4000_0000_0000_0000_0000_0000_0000_0000) by (nonlinear_arith)
        requires
            -0x8000_0000_0000_0000 <= a <= 0x7fff_ffff_ffff_ffff,
            -0x8000_0000_0000_0000 <= b <= 0x7fff_ffff_ffff_ffff,
    ;
}

/// Within their range, thousandths are added and subtracted exactly; a product and a
/// quotient are rounded down to a thousandth.
pub proof fn law_thousandths_calculate(a: Thousandths, b: Thousandths)
    requires
        -1_000_000_000 <= a.count <= 1_000_000_000,
        -1_000_000_000 <= b.count <= 1_000_000_000,
    ensures
        a.plus_spec(b).count == a.count + b.count,
        a.minus_spec(b).count == a.count - b.count,
        a.times_spec(b).count * 1000 <= a.count * b.count < a.times_spec(b).count * 1000 + 1000,
        b.count > 0 ==> a.over_spec(b).count * b.count <= a.count * 1000 < (a.over_spec(b).count + 1) * b.count,
{
    let x = a.count as int;
    let y = b.count as int;
    assert(-1_000_000_000_000_000_000 <= x * y <= 1_000_000_000_000_000_000) by (nonlinear_arith)
        requires
            -1_000_000_000 <= x <= 1_000_000_000,
            -1_000_000_000 <= y <= 1_000_000_000,
    ;
    if y > 0 {
        let q = (x * 1000) / y;
        vstd::arithmetic::div_mod::lemma_fundamental_div_mod(x * 1000, y);
        assert(q * y <= x * 1000 < (q + 1) * y) by (nonlinear_arith)
            requires
                x * 1000 == y * q + (x * 1000) % y,
                0 <= (x * 1000) % y < y,
        ;
        assert(-1_000_000_000_001 <= q <= 1_000_000_000_000) by (nonlinear_arith)
            requires
                q * y <= x * 1000 < (q + 1) * y,
                y >= 1,
                -1_000_000_000 <= x <= 1_000_000_000,
        ;
    }
}

/// Rounding goes to the nearest whole number, truncating down and the ceiling up, to no
/// less than zero.
pub proof fn law_thousandths_round(a: Thousandths)
    requires
        -1_000_000_000_000 <= a.count <= 1_000_000_000_000,
    ensures
        -500 <= a.round_i64_spec() * 1000 - a.count <= 500,
        a.count >= 0 ==> a.trunc_u64_spec() * 1000 <= a.count < a.trunc_u64_spec() * 1000 + 1000,
        a.count >= 0 ==> a.count <= a.ceil_u64_spec() * 1000 < a.count + 1000,
        a.count < 0 ==> a.trunc_u64_spec() == 0 && a.ceil_u64_spec() == 0,
{
}

/// Of two numbers the greater is no less than either, and the lesser no greater.
pub proof fn law_greater_and_lesser<S: Scalar>(a: S, b: S)
    ensures
        a.rank() <= max_spec(a, b).rank() && b.rank() <= max_spec(a, b).rank(),
        max_spec(a, b) == a || max_spec(a, b) == b,
        min_spec(a, b).rank() <= a.rank() && min_spec(a, b).rank() <= b.rank(),
        min_spec(a, b) == a || min_spec(a, b) == b,
{
}

} // verus!
