use vstd::prelude::*;

verus! {

/// A non-negative rational number `num / den`.
#[derive(Clone, Copy, Debug, PartialEq, Eq, Structural)]
pub struct Ratio {
    pub num: u128,
    pub den: u128,
}

/// A rational number as a pair of integers (numerator, denominator).
pub type Rational = (int, int);

/// The value of `r` as a pair of integers.
pub open spec fn q(r: Ratio) -> Rational {
    (r.num as int, r.den as int)
}

/// `a` and `b` stand for the same number.
pub open spec fn same_value(a: Rational, b: Rational) -> bool {
    a.0 * b.1 == b.0 * a.1
}

/// Largest numerator or denominator of a value that a user enters.
pub const INPUT_MAX: u128 = 18446744073709551615;

/// A value that a user can enter: numerator and denominator fit 64 bits.
pub open spec fn is_input(r: Ratio) -> bool {
    0 < r.den <= INPUT_MAX && r.num <= INPUT_MAX
}

/// Pixels per millimeter for a resolution in pixels per meter; an unknown or
/// zero resolution counts as 72 pixels per inch (25.4 mm).
pub open spec fn density_spec(pixels_per_meter: Option<u32>) -> Rational {
    match pixels_per_meter {
        Some(p) if p > 0 => (p as int, 1000),
        _ => (720, 254),
    }
}

/// Physical size in millimeters of `repeat` copies of `pixels` pixels at
/// `density` pixels per millimeter.
pub open spec fn dim_for_repeat(repeat: Rational, pixels: int, density: Rational) -> Rational {
    (repeat.0 * pixels * density.1, repeat.1 * density.0)
}

/// Number of copies of `pixels` pixels at `density` pixels per millimeter
/// that span `dim` millimeters.
pub open spec fn repeat_for_dim(dim: Rational, pixels: int, density: Rational) -> Rational {
    (dim.0 * density.0, dim.1 * density.1 * pixels)
}

/// Pixels per millimeter for a resolution in pixels per meter; an unknown or
/// zero resolution counts as 72 pixels per inch.
pub fn pixels_per_millimeter(pixels_per_meter: Option<u32>) -> (r: Ratio)
    ensures
        q(r) == density_spec(pixels_per_meter),
{
    match pixels_per_meter {
        Some(p) if p > 0 => Ratio { num: p as u128, den: 1000 },
        _ => Ratio { num: 720, den: 254 },
    }
}

/// Converting a repeat count to millimeters and back gives the same count.
pub proof fn lemma_repeat_round_trip(repeat: Rational, pixels: int, density: Rational)
    requires
        repeat.1 > 0,
        pixels > 0,
        density.0 > 0,
        density.1 > 0,
    ensures
        same_value(repeat_for_dim(dim_for_repeat(repeat, pixels, density), pixels, density), repeat),
{
    assert(repeat.0 * pixels * density.1 * density.0 * repeat.1 == repeat.0 * (repeat.1 * density.0
        * density.1 * pixels)) by (nonlinear_arith);
}

/// Converting millimeters to a repeat count and back gives the same size.
pub proof fn lemma_dim_round_trip(dim: Rational, pixels: int, density: Rational)
    requires
        dim.1 > 0,
        pixels > 0,
        density.0 > 0,
        density.1 > 0,
    ensures
        same_value(dim_for_repeat(repeat_for_dim(dim, pixels, density), pixels, density), dim),
{
    assert(dim.0 * density.0 * pixels * density.1 * dim.1 == dim.0 * (dim.1 * density.1 * pixels
        * density.0)) by (nonlinear_arith);
}

/// Largest number of pixels along one side of the source.
pub const SIDE_MAX: u128 = 4294967295;

/// Largest denominator of a density in pixels per millimeter.
pub const DENSITY_DEN_MAX: u128 = 1000;

/// A density in pixels per millimeter of the kind `pixels_per_millimeter`
/// returns.
pub open spec fn is_density(d: Ratio) -> bool {
    0 < d.num <= SIDE_MAX && 0 < d.den <= DENSITY_DEN_MAX
}

/// One axis of the output: its repeat count and its size in millimeters
/// agree for `pixels` source pixels at `density`, and both stay within the
/// sizes that the setters produce from entered values.
pub open spec fn axis_ok(repeat: Ratio, dim: Ratio, pixels: int, density: Ratio) -> bool {
    &&& 0 < repeat.den
    &&& 0 < dim.den
    &&& repeat.num <= INPUT_MAX * SIDE_MAX
    &&& repeat.den <= INPUT_MAX * SIDE_MAX * DENSITY_DEN_MAX
    &&& dim.num <= INPUT_MAX * SIDE_MAX * DENSITY_DEN_MAX
    &&& dim.den <= INPUT_MAX * SIDE_MAX
    &&& same_value(q(dim), dim_for_repeat(q(repeat), pixels, q(density)))
}

proof fn lemma_dim_ratio_exact(value: Ratio, pixels: int, density: Ratio)
    requires
        is_input(value),
        0 < pixels <= SIDE_MAX,
        is_density(density),
    ensures
        q(dim_ratio(value, pixels, density)) == dim_for_repeat(q(value), pixels, q(density)),
        0 <= value.num * pixels <= INPUT_MAX * SIDE_MAX,
        0 <= value.num * pixels * density.den <= INPUT_MAX * SIDE_MAX * DENSITY_DEN_MAX,
        0 < value.den * density.num <= INPUT_MAX * SIDE_MAX,
        INPUT_MAX * SIDE_MAX * DENSITY_DEN_MAX <= u128::MAX,
{
    assert(0 <= value.num * pixels <= INPUT_MAX * SIDE_MAX) by (nonlinear_arith)
        requires
            value.num <= INPUT_MAX,
            0 < pixels <= SIDE_MAX,
    ;
    assert(0 <= value.num * pixels * density.den <= INPUT_MAX * SIDE_MAX * DENSITY_DEN_MAX) by (nonlinear_arith)
        requires
            0 <= value.num * pixels <= INPUT_MAX * SIDE_MAX,
            0 < density.den <= DENSITY_DEN_MAX,
    ;
    assert(0 < value.den * density.num <= INPUT_MAX * SIDE_MAX) by (nonlinear_arith)
        requires
            0 < value.den <= INPUT_MAX,
            0 < density.num <= SIDE_MAX,
    ;
    assert(INPUT_MAX * SIDE_MAX * DENSITY_DEN_MAX <= u128::MAX);
}

proof fn lemma_repeat_ratio_exact(value: Ratio, pixels: int, density: Ratio)
    requires
        is_input(value),
        0 < pixels <= SIDE_MAX,
        is_density(density),
    ensures
        q(repeat_ratio(value, pixels, density)) == repeat_for_dim(q(value), pixels, q(density)),
        0 <= value.num * density.num <= INPUT_MAX * SIDE_MAX,
        0 < value.den * density.den <= INPUT_MAX * DENSITY_DEN_MAX,
        0 < value.den * density.den * pixels <= INPUT_MAX * SIDE_MAX * DENSITY_DEN_MAX,
        INPUT_MAX * SIDE_MAX * DENSITY_DEN_MAX <= u128::MAX,
{
    assert(0 <= value.num * density.num <= INPUT_MAX * SIDE_MAX) by (nonlinear_arith)
        requires
            value.num <= INPUT_MAX,
            0 < density.num <= SIDE_MAX,
    ;
    assert(0 < value.den * density.den <= INPUT_MAX * DENSITY_DEN_MAX) by (nonlinear_arith)
        requires
            0 < value.den <= INPUT_MAX,
            0 < density.den <= DENSITY_DEN_MAX,
    ;
    assert(0 < value.den * density.den * pixels <= INPUT_MAX * SIDE_MAX * DENSITY_DEN_MAX) by (nonlinear_arith)
        requires
            0 < value.den * density.den <= INPUT_MAX * DENSITY_DEN_MAX,
            0 < pixels <= SIDE_MAX,
    ;
    assert(INPUT_MAX * SIDE_MAX * DENSITY_DEN_MAX <= u128::MAX);
}

/// Size in millimeters of `value` copies of `pixels` pixels.
fn dim_from_repeat(value: Ratio, pixels: u32, density: Ratio) -> (r: Ratio)
    requires
        is_input(value),
        pixels > 0,
        is_density(density),
    ensures
        q(r) == dim_for_repeat(q(value), pixels as int, q(density)),
        r == dim_ratio(value, pixels as int, density),
        axis_ok(value, r, pixels as int, density),
{
    proof {
        lemma_dim_ratio_exact(value, pixels as int, density);
        lemma_input_within_bounds(value);
    }
    Ratio { num: value.num * (pixels as u128) * density.den, den: value.den * density.num }
}

/// Number of copies of `pixels` pixels that span `value` millimeters.
fn repeat_from_dim(value: Ratio, pixels: u32, density: Ratio) -> (r: Ratio)
    requires
        is_input(value),
        pixels > 0,
        is_density(density),
    ensures
        q(r) == repeat_for_dim(q(value), pixels as int, q(density)),
        r == repeat_ratio(value, pixels as int, density),
        axis_ok(r, value, pixels as int, density),
{
    proof {
        lemma_repeat_ratio_exact(value, pixels as int, density);
        lemma_input_within_bounds(value);
        lemma_dim_round_trip(q(value), pixels as int, q(density));
    }
    Ratio { num: value.num * density.num, den: value.den * density.den * (pixels as u128) }
}

proof fn lemma_input_within_bounds(value: Ratio)
    requires
        is_input(value),
    ensures
        value.num <= INPUT_MAX * SIDE_MAX,
        value.den <= INPUT_MAX * SIDE_MAX,
        value.num <= INPUT_MAX * SIDE_MAX * DENSITY_DEN_MAX,
        value.den <= INPUT_MAX * SIDE_MAX * DENSITY_DEN_MAX,
{
}

/// The output's repeat counts and physical size, kept consistent through the
/// source's pixel size and resolution: on each axis,
/// `dim_mm = repeat * source pixels / pixels_per_mm`.
#[derive(Clone, Copy, Debug)]
pub struct DimensionModel {
    pub source_width: u32,
    pub source_height: u32,
    pub pixels_per_mm: Ratio,
    pub repeat_x: Ratio,
    pub repeat_y: Ratio,
    pub dim_mm_x: Ratio,
    pub dim_mm_y: Ratio,
}

/// The size in millimeters that `dim_from_repeat` computes.
pub open spec fn dim_ratio(value: Ratio, pixels: int, density: Ratio) -> Ratio {
    Ratio { num: (value.num * pixels * density.den) as u128, den: (value.den * density.num) as u128 }
}

/// The repeat count that `repeat_from_dim` computes.
pub open spec fn repeat_ratio(value: Ratio, pixels: int, density: Ratio) -> Ratio {
    Ratio { num: (value.num * density.num) as u128, den: (value.den * density.den * pixels) as u128 }
}

/// Number of copies along each axis of a freshly loaded image.
pub const DEFAULT_REPEAT: u128 = 5;

impl DimensionModel {
    /// Both axes consistent, the source at least one pixel each way.
    pub open spec fn wf(&self) -> bool {
        &&& self.source_width > 0
        &&& self.source_height > 0
        &&& is_density(self.pixels_per_mm)
        &&& axis_ok(self.repeat_x, self.dim_mm_x, self.source_width as int, self.pixels_per_mm)
        &&& axis_ok(self.repeat_y, self.dim_mm_y, self.source_height as int, self.pixels_per_mm)
    }

    /// The model that `new` builds.
    pub open spec fn initial(source_width: u32, source_height: u32, pixels_per_meter: Option<u32>) -> DimensionModel {
        let d = density_spec(pixels_per_meter);
        let density = Ratio { num: d.0 as u128, den: d.1 as u128 };
        let repeat = Ratio { num: DEFAULT_REPEAT, den: 1 };
        DimensionModel {
            source_width,
            source_height,
            pixels_per_mm: density,
            repeat_x: repeat,
            repeat_y: repeat,
            dim_mm_x: dim_ratio(repeat, source_width as int, density),
            dim_mm_y: dim_ratio(repeat, source_height as int, density),
        }
    }

    /// The model after `set_repeat_x(value)`.
    pub open spec fn with_repeat_x(self, value: Ratio) -> DimensionModel {
        DimensionModel { repeat_x: value, dim_mm_x: dim_ratio(value, self.source_width as int, self.pixels_per_mm), ..self }
    }

    /// The model after `set_repeat_y(value)`.
    pub open spec fn with_repeat_y(self, value: Ratio) -> DimensionModel {
        DimensionModel { repeat_y: value, dim_mm_y: dim_ratio(value, self.source_height as int, self.pixels_per_mm), ..self }
    }

    /// The model after `set_dim_mm_x(value)`.
    pub open spec fn with_dim_mm_x(self, value: Ratio) -> DimensionModel {
        DimensionModel { dim_mm_x: value, repeat_x: repeat_ratio(value, self.source_width as int, self.pixels_per_mm), ..self }
    }

    /// The model after `set_dim_mm_y(value)`.
    pub open spec fn with_dim_mm_y(self, value: Ratio) -> DimensionModel {
        DimensionModel { dim_mm_y: value, repeat_y: repeat_ratio(value, self.source_height as int, self.pixels_per_mm), ..self }
    }

    /// The model for a source of `source_width` x `source_height` pixels at
    /// the given resolution, repeated five times along each axis.
    pub fn new(source_width: u32, source_height: u32, pixels_per_meter: Option<u32>) -> (r: DimensionModel)
        requires
            source_width > 0,
            source_height > 0,
        ensures
            r.wf(),
            r.source_width == source_width,
            r.source_height == source_height,
            q(r.pixels_per_mm) == density_spec(pixels_per_meter),
            q(r.repeat_x) == (DEFAULT_REPEAT as int, 1int),
            q(r.repeat_y) == (DEFAULT_REPEAT as int, 1int),
            q(r.dim_mm_x) == dim_for_repeat((DEFAULT_REPEAT as int, 1), source_width as int, q(r.pixels_per_mm)),
            q(r.dim_mm_y) == dim_for_repeat((DEFAULT_REPEAT as int, 1), source_height as int, q(r.pixels_per_mm)),
            r == DimensionModel::initial(source_width, source_height, pixels_per_meter),
    {
        let density = pixels_per_millimeter(pixels_per_meter);
        let repeat = Ratio { num: DEFAULT_REPEAT, den: 1 };
        DimensionModel {
            source_width,
            source_height,
            pixels_per_mm: density,
            repeat_x: repeat,
            repeat_y: repeat,
            dim_mm_x: dim_from_repeat(repeat, source_width, density),
            dim_mm_y: dim_from_repeat(repeat, source_height, density),
        }
    }

    /// Sets the horizontal repeat count; the width in millimeters follows.
    pub fn set_repeat_x(&mut self, value: Ratio)
        requires
            old(self).wf(),
            is_input(value),
        ensures
            final(self).wf(),
            final(self).repeat_x == value,
            q(final(self).dim_mm_x) == dim_for_repeat(q(value), old(self).source_width as int, q(old(self).pixels_per_mm)),
            *final(self) == old(self).with_repeat_x(value),
    {
        self.dim_mm_x = dim_from_repeat(value, self.source_width, self.pixels_per_mm);
        self.repeat_x = value;
    }

    /// Sets the vertical repeat count; the height in millimeters follows.
    pub fn set_repeat_y(&mut self, value: Ratio)
        requires
            old(self).wf(),
            is_input(value),
        ensures
            final(self).wf(),
            final(self).repeat_y == value,
            q(final(self).dim_mm_y) == dim_for_repeat(q(value), old(self).source_height as int, q(old(self).pixels_per_mm)),
            *final(self) == old(self).with_repeat_y(value),
    {
        self.dim_mm_y = dim_from_repeat(value, self.source_height, self.pixels_per_mm);
        self.repeat_y = value;
    }

    /// Sets the width in millimeters; the horizontal repeat count follows.
    pub fn set_dim_mm_x(&mut self, value: Ratio)
        requires
            old(self).wf(),
            is_input(value),
        ensures
            final(self).wf(),
            final(self).dim_mm_x == value,
            q(final(self).repeat_x) == repeat_for_dim(q(value), old(self).source_width as int, q(old(self).pixels_per_mm)),
            *final(self) == old(self).with_dim_mm_x(value),
    {
        self.repeat_x = repeat_from_dim(value, self.source_width, self.pixels_per_mm);
        self.dim_mm_x = value;
    }

    /// Sets the height in millimeters; the vertical repeat count follows.
    pub fn set_dim_mm_y(&mut self, value: Ratio)
        requires
            old(self).wf(),
            is_input(value),
        ensures
            final(self).wf(),
            final(self).dim_mm_y == value,
            q(final(self).repeat_y) == repeat_for_dim(q(value), old(self).source_height as int, q(old(self).pixels_per_mm)),
            *final(self) == old(self).with_dim_mm_y(value),
    {
        self.repeat_y = repeat_from_dim(value, self.source_height, self.pixels_per_mm);
        self.dim_mm_y = value;
    }
}

/// Setting a horizontal repeat count, reading the width in millimeters that
/// follows, and setting that width gives back the same repeat count (as a
/// number; numerator and denominator may differ).
pub proof fn lemma_set_repeat_then_dim_round_trip(m: DimensionModel, r: Ratio)
    requires
        m.wf(),
        is_input(r),
        is_input(m.with_repeat_x(r).dim_mm_x),
    ensures
        same_value(q(m.with_repeat_x(r).with_dim_mm_x(m.with_repeat_x(r).dim_mm_x).repeat_x), q(r)),
{
    let w = m.source_width as int;
    let d = m.pixels_per_mm;
    let dim = m.with_repeat_x(r).dim_mm_x;
    lemma_dim_ratio_exact(r, w, d);
    lemma_repeat_ratio_exact(dim, w, d);
    lemma_repeat_round_trip(q(r), w, q(d));
}

/// Why the current values cannot be rendered.
#[derive(Clone, Copy, Debug, PartialEq, Eq, Structural)]
pub enum ValidationError {
    /// A repeat count or a size is zero.
    NotPositive,
    /// An output side would exceed 32 bits of pixels.
    TooLarge,
    /// An entry was negative, not a number, infinite, or too large to hold.
    Unusable,
}

/// `v` rounded to the nearest integer, halves away from zero (for `v >= 0`).
pub open spec fn round_nearest(v: Rational) -> int {
    v.0 / v.1 + if 2 * (v.0 % v.1) >= v.1 {
        1int
    } else {
        0int
    }
}

/// `n / d` rounded to the nearest integer, halves up.
fn round_ratio(n: u128, d: u128) -> (r: u128)
    requires
        d > 0,
        n < u128::MAX,
    ensures
        r == round_nearest((n as int, d as int)),
{
    let quotient: u128 = n / d;
    let rest: u128 = n % d;
    proof {
        assert(quotient <= n) by (nonlinear_arith)
            requires
                d > 0,
                quotient == n / d,
                n >= 0,
        ;
    }
    if rest >= d - rest {
        quotient + 1
    } else {
        quotient
    }
}

/// Pixel count of `repeat` copies of `pixels` pixels, rounded to the nearest.
pub open spec fn output_pixels(repeat: Ratio, pixels: int) -> int {
    round_nearest((repeat.num * pixels, repeat.den as int))
}

/// Pixel count of `repeat` copies of `pixels` pixels; `None` past 32 bits.
fn output_side(repeat: Ratio, pixels: u32) -> (r: Option<u32>)
    requires
        0 < repeat.den,
        repeat.num <= INPUT_MAX * SIDE_MAX,
    ensures
        output_pixels(repeat, pixels as int) <= u32::MAX ==> r == Some(output_pixels(repeat, pixels as int) as u32),
        output_pixels(repeat, pixels as int) > u32::MAX ==> r is None,
{
    proof {
        assert(repeat.num * pixels <= INPUT_MAX * SIDE_MAX * SIDE_MAX) by (nonlinear_arith)
            requires
                repeat.num <= INPUT_MAX * SIDE_MAX,
                pixels <= SIDE_MAX,
        ;
        assert(INPUT_MAX * SIDE_MAX * SIDE_MAX < u128::MAX);
    }
    let n: u128 = repeat.num * (pixels as u128);
    let rounded = round_ratio(n, repeat.den);
    if rounded > 4294967295 {
        None
    } else {
        Some(rounded as u32)
    }
}

/// The unsigned decimal digits of `n`, most significant first.
pub open spec fn decimal_digits(n: nat) -> Seq<u8>
    decreases n,
{
    if n < 10 {
        seq![(48 + n) as u8]
    } else {
        decimal_digits(n / 10).push((48 + n % 10) as u8)
    }
}

/// The distance between `x` and zero.
pub open spec fn abs(x: int) -> int {
    if x < 0 {
        -x
    } else {
        x
    }
}

/// `v` lies within one hundredth of a whole number.
pub open spec fn near_whole(v: Rational) -> bool {
    100 * abs(v.0 - v.1 * round_nearest(v)) < v.1
}

/// `v` for display: a whole number where it lies within one hundredth of
/// one, else with two decimals.
pub open spec fn pretty_number(v: Rational) -> Seq<u8> {
    if near_whole(v) {
        decimal_digits(round_nearest(v) as nat)
    } else {
        let h = round_nearest((100 * v.0, v.1));
        decimal_digits((h / 100) as nat) + seq![0x2eu8, (48 + h % 100 / 10) as u8, (48 + h % 10) as u8]
    }
}

/// Appends the decimal digits of `n`.
fn push_decimal(out: &mut Vec<u8>, n: u128)
    ensures
        final(out)@ == old(out)@ + decimal_digits(n as nat),
    decreases n,
{
    if n >= 10 {
        push_decimal(out, n / 10);
    }
    out.push(48 + (n % 10) as u8);
}

/// Largest numerator or denominator that the model holds.
pub open spec fn held_max() -> int {
    INPUT_MAX * SIDE_MAX * DENSITY_DEN_MAX
}

/// Appends `v` for display: a whole number where it lies within one
/// hundredth of one, else with two decimals.
fn push_pretty(out: &mut Vec<u8>, v: Ratio)
    requires
        0 < v.den <= held_max(),
        v.num <= held_max(),
    ensures
        final(out)@ == old(out)@ + pretty_number(q(v)),
{
    let n = v.num;
    let d = v.den;
    assert(held_max() * 100 < u128::MAX);
    let whole = round_ratio(n, d);
    proof {
        vstd::arithmetic::div_mod::lemma_fundamental_div_mod(n as int, d as int);
        assert(0 <= n % d < d);
        assert(d * whole <= n + d) by (nonlinear_arith)
            requires
                whole <= n / d + 1,
                n == d * (n / d) + n % d,
                n % d >= 0,
                d > 0,
        ;
        assert(d * whole >= n - d) by (nonlinear_arith)
            requires
                whole >= n / d,
                n == d * (n / d) + n % d,
                n % d < d,
                d > 0,
        ;
    }
    let scaled: u128 = d * whole;
    let distance: u128 = if n >= scaled {
        n - scaled
    } else {
        scaled - n
    };
    if 100 * distance < d {
        push_decimal(out, whole);
    } else {
        let h = round_ratio(100 * n, d);
        push_decimal(out, h / 100);
        out.push(0x2eu8);
        out.push(48 + ((h % 100) / 10) as u8);
        out.push(48 + (h % 10) as u8);
        assert(out@ =~= old(out)@ + pretty_number(q(v)));
    }
}

/// `v` for display: a whole number where it lies within one hundredth of
/// one, else with two decimals, e.g. `16.93`.
pub fn pretty_text(v: Ratio) -> (r: Vec<u8>)
    requires
        0 < v.den <= held_max(),
        v.num <= held_max(),
    ensures
        r@ == pretty_number(q(v)),
{
    let mut out: Vec<u8> = Vec::new();
    push_pretty(&mut out, v);
    assert(out@ =~= pretty_number(q(v)));
    out
}

impl DimensionModel {
    /// All four values are above zero.
    pub open spec fn all_positive(&self) -> bool {
        &&& self.repeat_x.num > 0
        &&& self.repeat_y.num > 0
        &&& self.dim_mm_x.num > 0
        &&& self.dim_mm_y.num > 0
    }

    /// The output size in pixels: each side the repeat count times the
    /// source's side, rounded to the nearest pixel.
    pub open spec fn output_size_spec(&self) -> Result<(u32, u32), ValidationError> {
        let w = output_pixels(self.repeat_x, self.source_width as int);
        let h = output_pixels(self.repeat_y, self.source_height as int);
        if !self.all_positive() {
            Err(ValidationError::NotPositive)
        } else if w > u32::MAX || h > u32::MAX {
            Err(ValidationError::TooLarge)
        } else {
            Ok((w as u32, h as u32))
        }
    }

    /// The output size in pixels, each side rounded to the nearest pixel;
    /// refused where a value is zero or a side does not fit 32 bits.
    pub fn output_pixel_size(&self) -> (r: Result<(u32, u32), ValidationError>)
        requires
            self.wf(),
        ensures
            r == self.output_size_spec(),
    {
        if self.repeat_x.num == 0 || self.repeat_y.num == 0 || self.dim_mm_x.num == 0 || self.dim_mm_y.num == 0 {
            return Err(ValidationError::NotPositive);
        }
        match (output_side(self.repeat_x, self.source_width), output_side(self.repeat_y, self.source_height)) {
            (Some(w), Some(h)) => Ok((w, h)),
            _ => Err(ValidationError::TooLarge),
        }
    }

    /// The file-name suffix `__{repeat_x}x{repeat_y}__{dim_mm_x}x{dim_mm_y}mm`.
    pub open spec fn output_suffix_spec(&self) -> Seq<u8> {
        seq![0x5fu8, 0x5fu8] + pretty_number(q(self.repeat_x)) + seq![0x78u8] + pretty_number(q(self.repeat_y))
            + seq![0x5fu8, 0x5fu8] + pretty_number(q(self.dim_mm_x)) + seq![0x78u8] + pretty_number(
            q(self.dim_mm_y),
        ) + seq![0x6du8, 0x6du8]
    }

    /// The file-name suffix that records the chosen values, as ASCII, e.g.
    /// `__5x5__120x80mm`.
    pub fn output_suffix(&self) -> (r: Vec<u8>)
        requires
            self.wf(),
        ensures
            r@ == self.output_suffix_spec(),
    {
        let mut out: Vec<u8> = Vec::new();
        out.push(0x5fu8);
        out.push(0x5fu8);
        push_pretty(&mut out, self.repeat_x);
        out.push(0x78u8);
        push_pretty(&mut out, self.repeat_y);
        out.push(0x5fu8);
        out.push(0x5fu8);
        push_pretty(&mut out, self.dim_mm_x);
        out.push(0x78u8);
        push_pretty(&mut out, self.dim_mm_y);
        out.push(0x6du8);
        out.push(0x6du8);
        assert(out@ =~= self.output_suffix_spec());
        out
    }
}

} // verus!

