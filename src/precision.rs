use vstd::prelude::*;

verus! {

/// `ceil(log2(n))`, with `ceil(log2(0)) == ceil(log2(1)) == 0`.
pub open spec fn ceil_log2(n: nat) -> nat
    decreases n,
{
    if n <= 1 {
        0
    } else {
        1 + ceil_log2(((n + 1) / 2) as nat)
    }
}

pub open spec fn max_nat(a: nat, b: nat) -> nat {
    if a >= b { a } else { b }
}

/// Bits needed to index any pixel of a `width` x `height` raster.
pub open spec fn resolution_bits(width: nat, height: nat) -> nat {
    ceil_log2(max_nat(width, height)) + 1
}

/// How the caller chose to describe the viewed region.
#[derive(Clone, Copy, Debug, PartialEq, Eq, Structural)]
pub enum CoordinateMode {
    /// Explicit domain (real axis) and range (imaginary axis) bounds.
    Bounds,
    /// A center point and a zoom level.
    Zoom,
}

#[derive(Clone, Copy, Debug, PartialEq, Eq, Structural)]
pub enum PlanError {
    /// Neither bounds nor center and zoom were given.
    MissingCoordinates,
    /// Both bounds and a center or zoom were given.
    ConflictingCoordinates,
    /// Only one half of a pair (domain/range or center/zoom) was given.
    PartialCoordinates,
    /// The precision does not fit in 32 bits.
    PrecisionOverflow,
}

pub open spec fn mode_spec(
    has_domain: bool,
    has_range: bool,
    has_center: bool,
    has_zoom: bool,
) -> Result<CoordinateMode, PlanError> {
    let any_bounds = has_domain || has_range;
    let any_zoom = has_center || has_zoom;
    if any_bounds && any_zoom {
        Err(PlanError::ConflictingCoordinates)
    } else if !any_bounds && !any_zoom {
        Err(PlanError::MissingCoordinates)
    } else if has_domain && has_range {
        Ok(CoordinateMode::Bounds)
    } else if has_center && has_zoom {
        Ok(CoordinateMode::Zoom)
    } else {
        Err(PlanError::PartialCoordinates)
    }
}

/// Decides which coordinate specification is in force: exactly one complete
/// pair must be present.
pub fn select_mode(has_domain: bool, has_range: bool, has_center: bool, has_zoom: bool) -> (r:
    Result<CoordinateMode, PlanError>)
    ensures
        r == mode_spec(has_domain, has_range, has_center, has_zoom),
        r == Ok::<CoordinateMode, PlanError>(CoordinateMode::Bounds) <==> (has_domain && has_range && !has_center && !has_zoom),
        r == Ok::<CoordinateMode, PlanError>(CoordinateMode::Zoom) <==> (has_center && has_zoom && !has_domain && !has_range),
{
    let any_bounds = has_domain || has_range;
    let any_zoom = has_center || has_zoom;
    if any_bounds && any_zoom {
        Err(PlanError::ConflictingCoordinates)
    } else if !any_bounds && !any_zoom {
        Err(PlanError::MissingCoordinates)
    } else if has_domain && has_range {
        Ok(CoordinateMode::Bounds)
    } else if has_center && has_zoom {
        Ok(CoordinateMode::Zoom)
    } else {
        Err(PlanError::PartialCoordinates)
    }
}

/// `ceil(log2(n))` for a 32-bit value.
pub fn ceil_log2_u32(n: u32) -> (r: u32)
    ensures
        r == ceil_log2(n as nat),
        r <= 32,
{
    let mut m: u64 = n as u64;
    let mut k: u32 = 0;
    proof {
        lemma_ceil_log2_bound(n as nat);
    }
    while m > 1
        invariant
            m <= u32::MAX,
            k <= 32,
            k + ceil_log2(m as nat) == ceil_log2(n as nat),
            ceil_log2(n as nat) <= 32,
        decreases m,
    {
        m = (m + 1) / 2;
        k = k + 1;
    }
    k
}

/// `ceil_log2(n) <= 32` for every 32-bit `n`.
proof fn lemma_ceil_log2_bound(n: nat)
    requires
        n <= u32::MAX,
    ensures
        ceil_log2(n) <= 32,
{
    lemma_ceil_log2_monotone(n, u32::MAX as nat);
    reveal_with_fuel(ceil_log2, 34);
    assert(ceil_log2(u32::MAX as nat) == 32);
}

proof fn lemma_ceil_log2_monotone(a: nat, b: nat)
    requires
        a <= b,
    ensures
        ceil_log2(a) <= ceil_log2(b),
    decreases b,
{
    if a > 1 {
        lemma_ceil_log2_monotone(((a + 1) / 2) as nat, ((b + 1) / 2) as nat);
    }
}

/// Bits needed to index any pixel: `ceil(log2(max(width, height))) + 1`.
pub fn resolution_precision(width: u32, height: u32) -> (r: u32)
    ensures
        r == resolution_bits(width as nat, height as nat),
        1 <= r <= 33,
{
    let m = if width >= height { width } else { height };
    ceil_log2_u32(m) + 1
}

pub open spec fn bounds_precision_spec(width: nat, height: nat, domain_bits: nat, range_bits: nat) -> nat {
    resolution_bits(width, height) + max_nat(domain_bits, range_bits) + 4
}

pub open spec fn zoom_precision_spec(width: nat, height: nat, zoom_bits: nat) -> nat {
    resolution_bits(width, height) + zoom_bits + 3
}

/// Working precision for a view given by explicit bounds. `domain_bits` and
/// `range_bits` are the precisions that the bounds were read at.
pub fn bounds_precision(width: u32, height: u32, domain_bits: u32, range_bits: u32) -> (r: Result<
    u32,
    PlanError,
>)
    ensures
        bounds_precision_spec(width as nat, height as nat, domain_bits as nat, range_bits as nat)
            <= u32::MAX ==> r == Ok::<u32, PlanError>(
            bounds_precision_spec(width as nat, height as nat, domain_bits as nat, range_bits as nat)
                as u32,
        ),
        bounds_precision_spec(width as nat, height as nat, domain_bits as nat, range_bits as nat)
            > u32::MAX ==> r == Err::<u32, PlanError>(PlanError::PrecisionOverflow),
{
    let res = resolution_precision(width, height) as u64;
    let input = if domain_bits >= range_bits { domain_bits } else { range_bits } as u64;
    let total = res + input + 4;
    if total > u32::MAX as u64 {
        Err(PlanError::PrecisionOverflow)
    } else {
        Ok(total as u32)
    }
}

/// Working precision for a view given by a center and a zoom level, where
/// `zoom_bits` is `ceil(zoom * log2(10))`.
pub fn zoom_precision(width: u32, height: u32, zoom_bits: u32) -> (r: Result<u32, PlanError>)
    ensures
        zoom_precision_spec(width as nat, height as nat, zoom_bits as nat) <= u32::MAX ==> r
            == Ok::<u32, PlanError>(
            zoom_precision_spec(width as nat, height as nat, zoom_bits as nat) as u32,
        ),
        zoom_precision_spec(width as nat, height as nat, zoom_bits as nat) > u32::MAX ==> r
            == Err::<u32, PlanError>(PlanError::PrecisionOverflow),
{
    let res = resolution_precision(width, height) as u64;
    let total = res + zoom_bits as u64 + 3;
    if total > u32::MAX as u64 {
        Err(PlanError::PrecisionOverflow)
    } else {
        Ok(total as u32)
    }
}

/// A deeper zoom never lowers the planned precision: more zoom bits give a
/// strictly larger precision, for the same resolution.
pub proof fn lemma_zoom_precision_increasing(width: nat, height: nat, zoom_bits: nat, deeper_bits: nat)
    requires
        zoom_bits < deeper_bits,
    ensures
        zoom_precision_spec(width, height, zoom_bits) < zoom_precision_spec(width, height, deeper_bits),
{
}

} // verus!
