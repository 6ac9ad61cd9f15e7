//! Exact signed decimals: a 96-bit mantissa and a power-of-ten scale.

use std::cmp::Ordering;
use vstd::prelude::*;

verus! {

/// Largest magnitude of a mantissa: `2^96 - 1`.
pub const MAX_MANTISSA: i128 = 79_228_162_514_264_337_593_543_950_335;

/// Largest number of fractional digits.
pub const MAX_SCALE: u32 = 28;

/// Ten to the power `n`.
pub open spec fn pow10(n: nat) -> int
    decreases n,
{
    if n == 0 {
        1
    } else {
        10 * pow10((n - 1) as nat)
    }
}

/// The mathematical content of a [`Decimal`]: the number `mantissa / 10^scale`.
pub struct DecimalView {
    pub mantissa: int,
    pub scale: nat,
}

impl DecimalView {
    /// The mantissa and the scale are within what a [`Decimal`] can hold.
    pub open spec fn wf(self) -> bool {
        &&& -MAX_MANTISSA <= self.mantissa <= MAX_MANTISSA
        &&& self.scale <= MAX_SCALE
    }

    /// The number, counted in units of `10^-28`. Two decimals are numerically
    /// equal exactly when their units are equal.
    pub open spec fn units(self) -> int {
        self.mantissa * pow10((MAX_SCALE - self.scale) as nat)
    }

    /// Zero, with no fractional digits.
    pub open spec fn zero() -> DecimalView {
        DecimalView { mantissa: 0, scale: 0 }
    }

    /// The same number with the opposite sign.
    pub open spec fn negated(self) -> DecimalView {
        DecimalView { mantissa: -self.mantissa, scale: self.scale }
    }

    /// The larger of the two scales.
    pub open spec fn common_scale(self, other: DecimalView) -> nat {
        if self.scale >= other.scale {
            self.scale
        } else {
            other.scale
        }
    }

    /// The mantissa that writes this number with `scale` fractional digits,
    /// for a `scale` no smaller than its own.
    pub open spec fn aligned(self, scale: nat) -> int {
        self.mantissa * pow10((scale - self.scale) as nat)
    }

    /// The exact sum can be held: one operand is zero, or both operands and
    /// their sum, written at the larger scale, have mantissas in range.
    pub open spec fn add_fits(self, other: DecimalView) -> bool {
        ||| self.mantissa == 0
        ||| other.mantissa == 0
        ||| {
            let s = self.common_scale(other);
            &&& mantissa_in_range(self.aligned(s))
            &&& mantissa_in_range(other.aligned(s))
            &&& mantissa_in_range(self.aligned(s) + other.aligned(s))
        }
    }

    /// The sum: the other operand where one is zero, else the sum of the
    /// mantissas at the larger scale.
    pub open spec fn sum(self, other: DecimalView) -> DecimalView {
        if self.mantissa == 0 {
            other
        } else if other.mantissa == 0 {
            self
        } else {
            let s = self.common_scale(other);
            DecimalView { mantissa: self.aligned(s) + other.aligned(s), scale: s }
        }
    }

    /// The exact difference can be held.
    pub open spec fn sub_fits(self, other: DecimalView) -> bool {
        self.add_fits(other.negated())
    }

    /// The difference `self - other`.
    pub open spec fn difference(self, other: DecimalView) -> DecimalView {
        self.sum(other.negated())
    }

    /// The exact product can be held: one operand is zero, or the product of
    /// the mantissas is in range and the scales add up to at most 28.
    pub open spec fn mul_fits(self, other: DecimalView) -> bool {
        ||| self.mantissa == 0
        ||| other.mantissa == 0
        ||| {
            &&& mantissa_in_range(self.mantissa * other.mantissa)
            &&& self.scale + other.scale <= MAX_SCALE
        }
    }

    /// The product: plain zero where one operand is zero, else the product of
    /// the mantissas at the sum of the scales.
    pub open spec fn product(self, other: DecimalView) -> DecimalView {
        if self.mantissa == 0 || other.mantissa == 0 {
            DecimalView::zero()
        } else {
            DecimalView {
                mantissa: self.mantissa * other.mantissa,
                scale: self.scale + other.scale,
            }
        }
    }

    /// The smaller of the two numbers; `self` where they are equal.
    pub open spec fn min(self, other: DecimalView) -> DecimalView {
        if self.units() > other.units() {
            other
        } else {
            self
        }
    }

    /// How `self` stands to `other`: -1 below it, 0 equal to it, 1 above it.
    pub open spec fn compare(self, other: DecimalView) -> int {
        if self.units() < other.units() {
            -1
        } else if self.units() == other.units() {
            0
        } else {
            1
        }
    }
}

/// `m` is a mantissa that a [`Decimal`] can hold.
pub open spec fn mantissa_in_range(m: int) -> bool {
    -MAX_MANTISSA <= m <= MAX_MANTISSA
}

/// Powers of ten are positive and grow with the exponent.
pub proof fn lemma_pow10_increases(a: nat, b: nat)
    requires
        a <= b,
    ensures
        0 < pow10(a) <= pow10(b),
    decreases b,
{
    if a == 0 && b == 0 {
    } else if a == b {
        lemma_pow10_increases((a - 1) as nat, (b - 1) as nat);
    } else {
        lemma_pow10_increases(a, (b - 1) as nat);
    }
}

/// `10^(a + b) = 10^a * 10^b`.
pub proof fn lemma_pow10_adds(a: nat, b: nat)
    ensures
        pow10(a + b) == pow10(a) * pow10(b),
    decreases a,
{
    if a == 0 {
        assert(pow10(0) == 1);
        assert(pow10(a) * pow10(b) == pow10(b)) by (nonlinear_arith)
            requires
                pow10(a) == 1,
        ;
    } else {
        lemma_pow10_adds((a - 1) as nat, b);
        let x = pow10((a - 1) as nat);
        let y = pow10(b);
        assert(pow10(a) == 10 * x);
        assert(pow10(a + b) == 10 * pow10((a - 1 + b) as nat));
        assert((10 * x) * y == 10 * (x * y)) by (nonlinear_arith);
    }
}

/// A well-formed decimal lies between the two extremes, and has the sign of
/// its mantissa.
pub proof fn lemma_units_bounds(v: DecimalView)
    requires
        v.wf(),
    ensures
        (-MAX_MANTISSA) * pow10(28) <= v.units() <= MAX_MANTISSA * pow10(28),
        v.units() > 0 <==> v.mantissa > 0,
        v.units() == 0 <==> v.mantissa == 0,
{
    let k = (MAX_SCALE - v.scale) as nat;
    lemma_pow10_increases(k, 28);
    let p = pow10(k);
    let q = pow10(28);
    let m = v.mantissa;
    assert(m * p <= MAX_MANTISSA * q && (-MAX_MANTISSA) * q <= m * p) by (nonlinear_arith)
        requires
            0 < p <= q,
            -MAX_MANTISSA <= m <= MAX_MANTISSA,
    ;
    assert((m * p > 0 <==> m > 0) && (m * p == 0 <==> m == 0)) by (nonlinear_arith)
        requires
            0 < p,
    ;
}

/// A decimal written at a larger scale is the same number.
pub proof fn lemma_aligned_units(v: DecimalView, scale: nat)
    requires
        v.scale <= scale <= MAX_SCALE,
    ensures
        v.aligned(scale) * pow10((MAX_SCALE - scale) as nat) == v.units(),
{
    let up = (scale - v.scale) as nat;
    let rest = (MAX_SCALE - scale) as nat;
    lemma_pow10_adds(up, rest);
    assert(up + rest == (MAX_SCALE - v.scale) as nat);
    let m = v.mantissa;
    let x = pow10(up);
    let y = pow10(rest);
    assert((m * x) * y == m * (x * y)) by (nonlinear_arith);
}

/// The sum of two decimals is numerically the sum of the numbers, and is
/// well-formed where it fits.
pub proof fn lemma_sum_units(a: DecimalView, b: DecimalView)
    requires
        a.wf(),
        b.wf(),
    ensures
        a.sum(b).units() == a.units() + b.units(),
        a.add_fits(b) ==> a.sum(b).wf(),
{
    if a.mantissa == 0 {
        assert(a.units() == 0) by (nonlinear_arith)
            requires
                a.units() == a.mantissa * pow10((MAX_SCALE - a.scale) as nat),
                a.mantissa == 0,
        ;
    } else if b.mantissa == 0 {
        assert(b.units() == 0) by (nonlinear_arith)
            requires
                b.units() == b.mantissa * pow10((MAX_SCALE - b.scale) as nat),
                b.mantissa == 0,
        ;
    } else {
        let s = a.common_scale(b);
        lemma_aligned_units(a, s);
        lemma_aligned_units(b, s);
        let x = a.aligned(s);
        let y = b.aligned(s);
        let p = pow10((MAX_SCALE - s) as nat);
        assert((x + y) * p == x * p + y * p) by (nonlinear_arith);
    }
}

/// Negation turns the sign of the number and keeps it well-formed.
pub proof fn lemma_negated_units(a: DecimalView)
    ensures
        a.negated().units() == -a.units(),
        a.wf() ==> a.negated().wf(),
{
    let m = a.mantissa;
    let p = pow10((MAX_SCALE - a.scale) as nat);
    assert((-m) * p == -(m * p)) by (nonlinear_arith);
}

/// The difference of two decimals is numerically the difference of the
/// numbers, and is well-formed where it fits.
pub proof fn lemma_difference_units(a: DecimalView, b: DecimalView)
    requires
        a.wf(),
        b.wf(),
    ensures
        a.difference(b).units() == a.units() - b.units(),
        a.sub_fits(b) ==> a.difference(b).wf(),
{
    lemma_negated_units(b);
    lemma_sum_units(a, b.negated());
}

/// The product of two decimals is numerically the product of the numbers:
/// counted in units of `10^-28`, one factor `10^28` is taken out. It is
/// well-formed where it fits.
pub proof fn lemma_product_units(a: DecimalView, b: DecimalView)
    requires
        a.wf(),
        b.wf(),
        a.mul_fits(b),
    ensures
        a.product(b).units() * pow10(28) == a.units() * b.units(),
        a.product(b).wf(),
{
    if a.mantissa == 0 || b.mantissa == 0 {
        let x = a.mantissa;
        let y = b.mantissa;
        let p = pow10((MAX_SCALE - a.scale) as nat);
        let q = pow10((MAX_SCALE - b.scale) as nat);
        assert((x * p) * (y * q) == 0) by (nonlinear_arith)
            requires
                x == 0 || y == 0,
        ;
        assert(DecimalView::zero().units() == 0) by (nonlinear_arith)
            requires
                DecimalView::zero().units() == 0 * pow10(28),
        ;
    } else {
        let x = a.mantissa;
        let y = b.mantissa;
        let ka = (MAX_SCALE - a.scale) as nat;
        let kb = (MAX_SCALE - b.scale) as nat;
        let kp = (MAX_SCALE - (a.scale + b.scale)) as nat;
        lemma_pow10_adds(kp, 28);
        lemma_pow10_adds(ka, kb);
        assert(kp + 28 == ka + kb);
        let p = pow10(ka);
        let q = pow10(kb);
        let r = pow10(kp);
        let t = pow10(28);
        assert(((x * y) * r) * t == (x * p) * (y * q)) by (nonlinear_arith)
            requires
                r * t == p * q,
        ;
    }
}

/// `10^28`, written out.
pub proof fn lemma_pow10_28()
    ensures
        pow10(28) == 10_000_000_000_000_000_000_000_000_000,
{
    reveal_with_fuel(pow10, 29);
}

/// A signed decimal number `mantissa / 10^scale`, with a mantissa of up to 96
/// bits and up to 28 fractional digits: the numbers of `rust_decimal`, which
/// does the arithmetic on them.
#[derive(Clone, Copy, Debug)]
pub struct Decimal {
    mantissa: i128,
    scale: u32,
}

impl View for Decimal {
    type V = DecimalView;

    closed spec fn view(&self) -> DecimalView {
        DecimalView { mantissa: self.mantissa as int, scale: self.scale as nat }
    }
}

impl Decimal {
    #[verifier::type_invariant]
    pub open spec fn inv(self) -> bool {
        self@.wf()
    }

    /// The decimal `num / 10^scale`, or `None` where it cannot be held.
    pub fn try_from_i128_with_scale(num: i128, scale: u32) -> (r: Option<Decimal>)
        ensures
            r is Some <==> (DecimalView { mantissa: num as int, scale: scale as nat }).wf(),
            r matches Some(d) ==> d@ == (DecimalView { mantissa: num as int, scale: scale as nat }),
    {
        if scale <= MAX_SCALE && -MAX_MANTISSA <= num && num <= MAX_MANTISSA {
            Some(Decimal { mantissa: num, scale })
        } else {
            None
        }
    }

    /// The decimal `num / 10^scale`.
    pub fn new(num: i64, scale: u32) -> (d: Decimal)
        requires
            scale <= MAX_SCALE,
        ensures
            d@ == (DecimalView { mantissa: num as int, scale: scale as nat }),
    {
        Decimal { mantissa: num as i128, scale }
    }

    /// Zero, with no fractional digits.
    pub fn zero() -> (d: Decimal)
        ensures
            d@ == DecimalView::zero(),
    {
        Decimal { mantissa: 0, scale: 0 }
    }

    /// The largest decimal: no decimal is numerically above it.
    pub fn max_value() -> (d: Decimal)
        ensures
            d@ == (DecimalView { mantissa: MAX_MANTISSA as int, scale: 0 }),
            forall|v: DecimalView| v.wf() ==> #[trigger] v.units() <= d@.units(),
    {
        proof {
            assert forall|v: DecimalView| v.wf() implies #[trigger] v.units() <= MAX_MANTISSA
                * pow10(28) by {
                lemma_units_bounds(v);
            }
        }
        Decimal { mantissa: MAX_MANTISSA, scale: 0 }
    }

    /// The smallest decimal: no decimal is numerically below it.
    pub fn min_value() -> (d: Decimal)
        ensures
            d@ == (DecimalView { mantissa: -MAX_MANTISSA as int, scale: 0 }),
            forall|v: DecimalView| v.wf() ==> d@.units() <= #[trigger] v.units(),
    {
        proof {
            assert forall|v: DecimalView| v.wf() implies (-MAX_MANTISSA) * pow10(28)
                <= #[trigger] v.units() by {
                lemma_units_bounds(v);
            }
        }
        Decimal { mantissa: -MAX_MANTISSA, scale: 0 }
    }

    /// Whether the number is zero.
    pub fn is_zero(&self) -> (b: bool)
        ensures
            b == (self@.mantissa == 0),
    {
        self.mantissa == 0
    }

    /// Whether the number is above zero.
    pub fn is_positive(&self) -> (b: bool)
        ensures
            b == (self@.mantissa > 0),
    {
        self.mantissa > 0
    }

    /// The same number with the opposite sign.
    pub fn negated(self) -> (d: Decimal)
        ensures
            d@ == self@.negated(),
    {
        proof {
            use_type_invariant(&self);
        }
        Decimal { mantissa: -self.mantissa, scale: self.scale }
    }

    /// The mantissa of this number written with `scale` fractional digits,
    /// or `None` where that mantissa is out of range.
    fn align(self, scale: u32) -> (r: Option<i128>)
        requires
            self@.scale <= scale <= MAX_SCALE,
        ensures
            r is Some <==> mantissa_in_range(self@.aligned(scale as nat)),
            r matches Some(m) ==> m == self@.aligned(scale as nat),
    {
        let p = pow10_exec(scale - self.scale);
        match self.mantissa.checked_mul(p) {
            Some(m) => if -MAX_MANTISSA <= m && m <= MAX_MANTISSA {
                Some(m)
            } else {
                None
            },
            None => None,
        }
    }

    /// Whether the exact sum with `other` can be held.
    pub fn add_fits(self, other: Decimal) -> (b: bool)
        ensures
            b == self@.add_fits(other@),
    {
        proof {
            use_type_invariant(&self);
            use_type_invariant(&other);
        }
        if self.mantissa == 0 || other.mantissa == 0 {
            return true;
        }
        let scale = if self.scale >= other.scale {
            self.scale
        } else {
            other.scale
        };
        match (self.align(scale), other.align(scale)) {
            (Some(x), Some(y)) => -MAX_MANTISSA <= x + y && x + y <= MAX_MANTISSA,
            _ => false,
        }
    }

    /// Whether the exact difference `self - other` can be held.
    pub fn sub_fits(self, other: Decimal) -> (b: bool)
        ensures
            b == self@.sub_fits(other@),
    {
        self.add_fits(other.negated())
    }

    /// Whether the exact product with `other` can be held.
    pub fn mul_fits(self, other: Decimal) -> (b: bool)
        ensures
            b == self@.mul_fits(other@),
    {
        proof {
            use_type_invariant(&self);
            use_type_invariant(&other);
        }
        if self.mantissa == 0 || other.mantissa == 0 {
            return true;
        }
        match self.mantissa.checked_mul(other.mantissa) {
            Some(m) => -MAX_MANTISSA <= m && m <= MAX_MANTISSA && self.scale + other.scale
                <= MAX_SCALE,
            None => false,
        }
    }

    /// The sum, where it can be held exactly.
    pub fn add(self, other: Decimal) -> (d: Decimal)
        requires
            self@.add_fits(other@),
        ensures
            d@ == self@.sum(other@),
    {
        proof {
            use_type_invariant(&self);
            use_type_invariant(&other);
        }
        raw_add(self, other)
    }

    /// The difference `self - other`, where it can be held exactly.
    pub fn sub(self, other: Decimal) -> (d: Decimal)
        requires
            self@.sub_fits(other@),
        ensures
            d@ == self@.difference(other@),
    {
        proof {
            use_type_invariant(&self);
            use_type_invariant(&other);
        }
        raw_sub(self, other)
    }

    /// The product, where it can be held exactly.
    pub fn mul(self, other: Decimal) -> (d: Decimal)
        requires
            self@.mul_fits(other@),
        ensures
            d@ == self@.product(other@),
    {
        proof {
            use_type_invariant(&self);
            use_type_invariant(&other);
        }
        raw_mul(self, other)
    }

    /// The exact sum, or `None` where it cannot be held.
    pub fn checked_add(self, other: Decimal) -> (r: Option<Decimal>)
        ensures
            r is Some <==> self@.add_fits(other@),
            r matches Some(d) ==> d@ == self@.sum(other@),
    {
        if self.add_fits(other) {
            Some(self.add(other))
        } else {
            None
        }
    }

    /// The exact difference `self - other`, or `None` where it cannot be held.
    pub fn checked_sub(self, other: Decimal) -> (r: Option<Decimal>)
        ensures
            r is Some <==> self@.sub_fits(other@),
            r matches Some(d) ==> d@ == self@.difference(other@),
    {
        if self.sub_fits(other) {
            Some(self.sub(other))
        } else {
            None
        }
    }

    /// The exact product, or `None` where it cannot be held.
    pub fn checked_mul(self, other: Decimal) -> (r: Option<Decimal>)
        ensures
            r is Some <==> self@.mul_fits(other@),
            r matches Some(d) ==> d@ == self@.product(other@),
    {
        if self.mul_fits(other) {
            Some(self.mul(other))
        } else {
            None
        }
    }

    /// How `self` stands to `other` numerically: -1 below it, 0 equal to it,
    /// 1 above it.
    pub fn compare(&self, other: &Decimal) -> (o: i8)
        ensures
            o == self@.compare(other@),
    {
        proof {
            use_type_invariant(self);
            use_type_invariant(other);
        }
        raw_compare(*self, *other)
    }

    /// Whether `self` is numerically below `other`.
    pub fn lt(&self, other: &Decimal) -> (b: bool)
        ensures
            b == (self@.units() < other@.units()),
    {
        self.compare(other) < 0
    }

    /// Whether `self` is numerically at most `other`.
    pub fn le(&self, other: &Decimal) -> (b: bool)
        ensures
            b == (self@.units() <= other@.units()),
    {
        self.compare(other) <= 0
    }

    /// The smaller of the two numbers; `self` where they are equal.
    pub fn min(self, other: Decimal) -> (d: Decimal)
        ensures
            d@ == self@.min(other@),
    {
        if self.compare(&other) > 0 {
            other
        } else {
            self
        }
    }

    /// The mantissa: the number times `10^scale`.
    pub fn mantissa(&self) -> (m: i128)
        ensures
            m == self@.mantissa,
    {
        self.mantissa
    }

    /// The number of fractional digits.
    pub fn scale(&self) -> (s: u32)
        ensures
            s == self@.scale,
    {
        self.scale
    }
}

impl PartialEq for Decimal {
    /// Numerical equality: `1.0` equals `1.00`.
    fn eq(&self, other: &Decimal) -> (b: bool) {
        self.compare(other) == 0
    }
}

impl vstd::std_specs::cmp::PartialEqSpecImpl for Decimal {
    open spec fn obeys_eq_spec() -> bool {
        true
    }

    open spec fn eq_spec(&self, other: &Decimal) -> bool {
        self@.units() == other@.units()
    }
}

impl From<i32> for Decimal {
    /// The whole number `v`.
    fn from(v: i32) -> (d: Decimal) {
        Decimal { mantissa: v as i128, scale: 0 }
    }
}

impl vstd::std_specs::convert::FromSpecImpl<i32> for Decimal {
    open spec fn obeys_from_spec() -> bool {
        true
    }

    closed spec fn from_spec(v: i32) -> Decimal {
        Decimal { mantissa: v as i128, scale: 0 }
    }
}

impl From<i64> for Decimal {
    /// The whole number `v`.
    fn from(v: i64) -> (d: Decimal) {
        Decimal { mantissa: v as i128, scale: 0 }
    }
}

impl vstd::std_specs::convert::FromSpecImpl<i64> for Decimal {
    open spec fn obeys_from_spec() -> bool {
        true
    }

    closed spec fn from_spec(v: i64) -> Decimal {
        Decimal { mantissa: v as i128, scale: 0 }
    }
}

impl From<u8> for Decimal {
    /// The whole number `v`.
    fn from(v: u8) -> (d: Decimal) {
        Decimal { mantissa: v as i128, scale: 0 }
    }
}

impl vstd::std_specs::convert::FromSpecImpl<u8> for Decimal {
    open spec fn obeys_from_spec() -> bool {
        true
    }

    closed spec fn from_spec(v: u8) -> Decimal {
        Decimal { mantissa: v as i128, scale: 0 }
    }
}

impl From<u16> for Decimal {
    /// The whole number `v`.
    fn from(v: u16) -> (d: Decimal) {
        Decimal { mantissa: v as i128, scale: 0 }
    }
}

impl vstd::std_specs::convert::FromSpecImpl<u16> for Decimal {
    open spec fn obeys_from_spec() -> bool {
        true
    }

    closed spec fn from_spec(v: u16) -> Decimal {
        Decimal { mantissa: v as i128, scale: 0 }
    }
}

impl From<u32> for Decimal {
    /// The whole number `v`.
    fn from(v: u32) -> (d: Decimal) {
        Decimal { mantissa: v as i128, scale: 0 }
    }
}

impl vstd::std_specs::convert::FromSpecImpl<u32> for Decimal {
    open spec fn obeys_from_spec() -> bool {
        true
    }

    closed spec fn from_spec(v: u32) -> Decimal {
        Decimal { mantissa: v as i128, scale: 0 }
    }
}

impl From<u64> for Decimal {
    /// The whole number `v`.
    fn from(v: u64) -> (d: Decimal) {
        Decimal { mantissa: v as i128, scale: 0 }
    }
}

impl vstd::std_specs::convert::FromSpecImpl<u64> for Decimal {
    open spec fn obeys_from_spec() -> bool {
        true
    }

    closed spec fn from_spec(v: u64) -> Decimal {
        Decimal { mantissa: v as i128, scale: 0 }
    }
}

/// The whole number `n`, with no fractional digits.
pub open spec fn whole(n: int) -> DecimalView {
    DecimalView { mantissa: n, scale: 0 }
}

/// A decimal made from an integer is that whole number.
pub proof fn lemma_from_integer()
    ensures
        forall|v: i32|
            (#[trigger] <Decimal as vstd::std_specs::convert::FromSpec<i32>>::from_spec(v))@ == whole(
                v as int,
            ),
        forall|v: i64|
            (#[trigger] <Decimal as vstd::std_specs::convert::FromSpec<i64>>::from_spec(v))@ == whole(
                v as int,
            ),
        forall|v: u8|
            (#[trigger] <Decimal as vstd::std_specs::convert::FromSpec<u8>>::from_spec(v))@ == whole(
                v as int,
            ),
        forall|v: u16|
            (#[trigger] <Decimal as vstd::std_specs::convert::FromSpec<u16>>::from_spec(v))@ == whole(
                v as int,
            ),
        forall|v: u32|
            (#[trigger] <Decimal as vstd::std_specs::convert::FromSpec<u32>>::from_spec(v))@ == whole(
                v as int,
            ),
        forall|v: u64|
            (#[trigger] <Decimal as vstd::std_specs::convert::FromSpec<u64>>::from_spec(v))@ == whole(
                v as int,
            ),
{
}

/// Ten to the power `k`.
fn pow10_exec(k: u32) -> (p: i128)
    requires
        k <= MAX_SCALE,
    ensures
        p == pow10(k as nat),
        0 < p <= 10_000_000_000_000_000_000_000_000_000,
{
    let mut p: i128 = 1;
    let mut i: u32 = 0;
    while i < k
        invariant
            i <= k <= MAX_SCALE,
            p == pow10(i as nat),
        decreases k - i,
    {
        proof {
            lemma_pow10_increases((i + 1) as nat, 28);
            lemma_pow10_28();
        }
        p = p * 10;
        i = i + 1;
    }
    proof {
        lemma_pow10_increases(k as nat, 28);
        lemma_pow10_28();
    }
    p
}

/// `+` of `rust_decimal::Decimal`, on operands handed over with
/// `from_i128_with_scale` and with the result read back by `mantissa` and
/// `scale`. Where one operand is zero the addition hands back the other.
/// Otherwise it brings both mantissas to the larger scale and adds them. It
/// rounds, or panics, where that takes more than 96 bits; the contract leaves
/// those operands out and claims the exact sum for the rest: both aligned
/// mantissas and their sum within 96 bits.
#[verifier::external_body]
fn raw_add(a: Decimal, b: Decimal) -> (r: Decimal)
    requires
        a@.wf(),
        b@.wf(),
        a@.add_fits(b@),
    ensures
        r@ == a@.sum(b@),
{
    let x = rust_decimal::Decimal::from_i128_with_scale(a.mantissa, a.scale);
    let y = rust_decimal::Decimal::from_i128_with_scale(b.mantissa, b.scale);
    let z = x + y;
    Decimal { mantissa: z.mantissa(), scale: z.scale() }
}

/// `-` of `rust_decimal::Decimal`, with operands and result handed over as in
/// [`raw_add`]. It subtracts as `+` adds the negated second operand: `0 - b`
/// is `b` with its sign turned, `a - 0` is `a`, and otherwise the mantissas
/// are subtracted at the larger scale. The contract claims the exact
/// difference where both aligned mantissas and their difference stay within
/// 96 bits, and leaves the other operands out.
#[verifier::external_body]
fn raw_sub(a: Decimal, b: Decimal) -> (r: Decimal)
    requires
        a@.wf(),
        b@.wf(),
        a@.sub_fits(b@),
    ensures
        r@ == a@.difference(b@),
{
    let x = rust_decimal::Decimal::from_i128_with_scale(a.mantissa, a.scale);
    let y = rust_decimal::Decimal::from_i128_with_scale(b.mantissa, b.scale);
    let z = x - y;
    Decimal { mantissa: z.mantissa(), scale: z.scale() }
}

/// `*` of `rust_decimal::Decimal`, with operands and result handed over as in
/// [`raw_add`]. Where one operand is zero the multiplication gives zero with
/// no fractional digits. Otherwise it multiplies the mantissas and adds the
/// scales. It rounds, or panics, where the product takes more than 96 bits or
/// the scale is above 28; the contract leaves those operands out and claims
/// the exact product for the rest.
#[verifier::external_body]
fn raw_mul(a: Decimal, b: Decimal) -> (r: Decimal)
    requires
        a@.wf(),
        b@.wf(),
        a@.mul_fits(b@),
    ensures
        r@ == a@.product(b@),
{
    let x = rust_decimal::Decimal::from_i128_with_scale(a.mantissa, a.scale);
    let y = rust_decimal::Decimal::from_i128_with_scale(b.mantissa, b.scale);
    let z = x * y;
    Decimal { mantissa: z.mantissa(), scale: z.scale() }
}

/// `Ord::cmp` of `rust_decimal::Decimal`, with operands handed over as in
/// [`raw_add`]. It compares the two numbers by value, whatever their scales;
/// the contract gives its three answers as -1, 0 and 1.
#[verifier::external_body]
fn raw_compare(a: Decimal, b: Decimal) -> (o: i8)
    requires
        a@.wf(),
        b@.wf(),
    ensures
        o == a@.compare(b@),
{
    let x = rust_decimal::Decimal::from_i128_with_scale(a.mantissa, a.scale);
    let y = rust_decimal::Decimal::from_i128_with_scale(b.mantissa, b.scale);
    match x.cmp(&y) {
        Ordering::Less => -1,
        Ordering::Equal => 0,
        Ordering::Greater => 1,
    }
}

} // verus!
