//! Lengths in app units, and the logical sizes and edges built from them.
//!
//! Arithmetic on lengths saturates at the ends of the app-unit range, as
//! `app_units` does: a document that asks for something absurd gets a clamped
//! answer, never a wrapped one.
use vstd::prelude::*;

verus! {

/// App units per CSS pixel.
pub const AU_PER_PX: i32 = 60;

/// The largest app-unit value, `2^30 - 1`.
pub const MAX_AU_VALUE: i32 = 1073741823;

/// The smallest app-unit value, `-(2^30 - 1)`.
pub const MIN_AU_VALUE: i32 = -1073741823;

/// `v` brought into the app-unit range.
pub open spec fn clamp_au(v: int) -> int {
    if v < MIN_AU_VALUE {
        MIN_AU_VALUE as int
    } else if v > MAX_AU_VALUE {
        MAX_AU_VALUE as int
    } else {
        v
    }
}

/// Integer division rounding towards zero, as Rust's `/` does.
pub open spec fn trunc_div(a: int, b: int) -> int {
    let q = (if a < 0 { -a } else { a }) / (if b < 0 { -b } else { b });
    if (a < 0) != (b < 0) {
        -q
    } else {
        q
    }
}

/// `app_units::Au::new`: the value clamped into range.
///
/// The contract is what the crate's source shows: `Au(value).clamp()`.
#[verifier::external_body]
fn au_new(value: i32) -> (r: i32)
    ensures
        r == clamp_au(value as int),
{
    app_units::Au::new(value).0
}

/// `Add for app_units::Au`, on two in-range values.
///
/// The contract is what the crate's source shows: `Au(a + b).clamp()`, whose
/// `i32` sum cannot overflow for in-range operands.
#[verifier::external_body]
fn au_add(a: i32, b: i32) -> (r: i32)
    requires
        MIN_AU_VALUE <= a <= MAX_AU_VALUE,
        MIN_AU_VALUE <= b <= MAX_AU_VALUE,
    ensures
        r == clamp_au(a + b),
{
    (app_units::Au(a) + app_units::Au(b)).0
}

/// `Sub for app_units::Au`, on two in-range values.
///
/// The contract is what the crate's source shows: `Au(a - b).clamp()`.
#[verifier::external_body]
fn au_sub(a: i32, b: i32) -> (r: i32)
    requires
        MIN_AU_VALUE <= a <= MAX_AU_VALUE,
        MIN_AU_VALUE <= b <= MAX_AU_VALUE,
    ensures
        r == clamp_au(a - b),
{
    (app_units::Au(a) - app_units::Au(b)).0
}

/// `Mul<i32> for app_units::Au`.
///
/// The contract is what the crate's source shows: the product clamped, and
/// on `i32` overflow the end of the range the true product lies beyond.
#[verifier::external_body]
fn au_mul(a: i32, k: i32) -> (r: i32)
    ensures
        r == clamp_au(a * k),
{
    (app_units::Au(a) * k).0
}

/// `Div<i32> for app_units::Au`.
///
/// The contract is what the crate's source shows: `Au(a / k)`, truncating,
/// which for an in-range `a` and a non-zero `k` cannot overflow.
#[verifier::external_body]
fn au_div(a: i32, k: i32) -> (r: i32)
    requires
        MIN_AU_VALUE <= a <= MAX_AU_VALUE,
        k != 0,
    ensures
        r == trunc_div(a as int, k as int),
{
    (app_units::Au(a) / k).0
}

/// `app_units::Au::from_px`.
///
/// The contract is what the crate's source shows: `Au(px) * AU_PER_PX`, a
/// saturating product.
#[verifier::external_body]
fn au_from_px(px: i32) -> (r: i32)
    ensures
        r == clamp_au(px * 60),
{
    app_units::Au::from_px(px).0
}

/// `app_units::Au::to_px`.
///
/// The contract is what the crate's source shows: `self.0 / AU_PER_PX`,
/// truncating.
#[verifier::external_body]
fn au_to_px(a: i32) -> (r: i32)
    ensures
        r == trunc_div(a as int, 60),
{
    app_units::Au(a).to_px()
}

/// A length in app units, always within the app-unit range.
#[derive(Clone, Copy, Debug, PartialEq, Eq, Hash, PartialOrd, Ord, Structural)]
pub struct Au {
    value: i32,
}

impl View for Au {
    type V = int;

    closed spec fn view(&self) -> int {
        self.value as int
    }
}

impl Default for Au {
    fn default() -> (r: Au)
        ensures
            r@ == 0,
    {
        Au { value: 0 }
    }
}

impl Au {
    #[verifier::type_invariant]
    closed spec fn in_range(self) -> bool {
        MIN_AU_VALUE <= self.value <= MAX_AU_VALUE
    }

    /// The length `value` app units, clamped into range.
    pub fn new(value: i32) -> (r: Au)
        ensures
            r@ == clamp_au(value as int),
    {
        Au { value: au_new(value) }
    }

    /// Zero.
    pub fn zero() -> (r: Au)
        ensures
            r@ == 0,
    {
        Au { value: 0 }
    }

    /// The largest length.
    pub fn max_value() -> (r: Au)
        ensures
            r@ == MAX_AU_VALUE,
    {
        Au { value: MAX_AU_VALUE }
    }

    /// The smallest length.
    pub fn min_value() -> (r: Au)
        ensures
            r@ == MIN_AU_VALUE,
    {
        Au { value: MIN_AU_VALUE }
    }

    /// `px` CSS pixels, saturating.
    pub fn from_px(px: i32) -> (r: Au)
        ensures
            r@ == clamp_au(px * 60),
    {
        Au { value: au_from_px(px) }
    }

    /// The number of app units.
    pub fn value(self) -> (r: i32)
        ensures
            r == self@,
            MIN_AU_VALUE <= r <= MAX_AU_VALUE,
    {
        proof {
            use_type_invariant(&self);
        }
        self.value
    }

    /// Whole CSS pixels, rounded towards zero.
    pub fn to_px(self) -> (r: i32)
        ensures
            r == trunc_div(self@, 60),
    {
        au_to_px(self.value)
    }

    /// The sum, saturating.
    pub fn plus(self, other: Au) -> (r: Au)
        ensures
            r@ == clamp_au(self@ + other@),
    {
        proof {
            use_type_invariant(&self);
            use_type_invariant(&other);
        }
        Au { value: au_add(self.value, other.value) }
    }

    /// The difference, saturating.
    pub fn minus(self, other: Au) -> (r: Au)
        ensures
            r@ == clamp_au(self@ - other@),
    {
        proof {
            use_type_invariant(&self);
            use_type_invariant(&other);
        }
        Au { value: au_sub(self.value, other.value) }
    }

    /// The product with `k`, saturating.
    pub fn times(self, k: i32) -> (r: Au)
        ensures
            r@ == clamp_au(self@ * k),
    {
        Au { value: au_mul(self.value, k) }
    }

    /// The quotient by `k`, rounded towards zero.
    pub fn divided_by(self, k: i32) -> (r: Au)
        requires
            k != 0,
        ensures
            r@ == trunc_div(self@, k as int),
    {
        proof {
            use_type_invariant(&self);
            assert(MIN_AU_VALUE <= trunc_div(self@, k as int) <= MAX_AU_VALUE) by (nonlinear_arith)
                requires
                    MIN_AU_VALUE <= self@ <= MAX_AU_VALUE,
                    k != 0,
            {
                let a: int = if self@ < 0 { -self@ } else { self@ };
                let b: int = if k < 0 { -k } else { k as int };
                assert(a / b <= a);
            }
        }
        Au { value: au_div(self.value, k) }
    }
}

/// A length in CSS pixels.
pub fn px(value: i32) -> (r: Au)
    ensures
        r@ == clamp_au(value * 60),
{
    Au::from_px(value)
}

/// A length in app units, clamped into range.
pub fn au(value: i32) -> (r: Au)
    ensures
        r@ == clamp_au(value as int),
{
    Au::new(value)
}

/// A size along the inline and block axes.
#[derive(Clone, Copy, Debug, Default, PartialEq, Eq, Hash, Structural)]
pub struct LogicalSize {
    /// Along the inline axis.
    pub inline: Au,
    /// Along the block axis.
    pub block: Au,
}

impl LogicalSize {
    /// Zero on both axes.
    pub fn zero() -> (r: LogicalSize)
        ensures
            r.inline@ == 0 && r.block@ == 0,
    {
        LogicalSize { inline: Au::zero(), block: Au::zero() }
    }

    /// A size of `inline` by `block`.
    pub fn new(inline: Au, block: Au) -> (r: LogicalSize)
        ensures
            r.inline == inline && r.block == block,
    {
        LogicalSize { inline, block }
    }
}

/// Widths of the four sides of a box, by logical direction.
#[derive(Clone, Copy, Debug, Default, PartialEq, Eq, Hash, Structural)]
pub struct LogicalEdges {
    /// Before the content, along the block axis.
    pub block_start: Au,
    /// After the content, along the block axis.
    pub block_end: Au,
    /// Before the content, along the inline axis.
    pub inline_start: Au,
    /// After the content, along the inline axis.
    pub inline_end: Au,
}

impl LogicalEdges {
    /// Zero on every side.
    pub fn zero() -> (r: LogicalEdges)
        ensures
            r.block_start@ == 0 && r.block_end@ == 0 && r.inline_start@ == 0 && r.inline_end@ == 0,
    {
        LogicalEdges { block_start: Au::zero(), block_end: Au::zero(), inline_start: Au::zero(), inline_end: Au::zero() }
    }

    /// Both inline sides together, saturating.
    pub fn inline_sum(self) -> (r: Au)
        ensures
            r@ == clamp_au(self.inline_start@ + self.inline_end@),
    {
        self.inline_start.plus(self.inline_end)
    }

    /// Both block sides together, saturating.
    pub fn block_sum(self) -> (r: Au)
        ensures
            r@ == clamp_au(self.block_start@ + self.block_end@),
    {
        self.block_start.plus(self.block_end)
    }
}

} // verus!
