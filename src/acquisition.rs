use vstd::prelude::*;
use crate::orders::Side;
use crate::exchange::{OrderStatus, is_terminal_failure};

verus! {

/// Largest quantity precision (decimal places) the sizing handles.
pub const MAX_PRECISION: u32 = 18;

/// Basis points in a whole balance.
pub const SIZE_SCALE: u64 = 10000;

/// What the Position is: the asset, the direction and the notional to reach.
#[derive(Debug)]
pub struct PositionSpec {
    pub asset: String,
    pub side: Side,
    pub target_notional: u64,
}

impl PositionSpec {
    pub fn new(asset: String, side: Side, target_notional: u64) -> (r: PositionSpec)
        ensures
            r.asset == asset,
            r.side == side,
            r.target_notional == target_notional,
    {
        PositionSpec { asset, side, target_notional }
    }
}

/// Why a position could not be sized or acquired.
#[derive(Debug, Clone, Copy, PartialEq, Eq, Structural)]
pub enum AcquisitionError {
    /// The requested size is zero.
    ZeroSize,
    /// The requested size does not fit the notional range.
    SizeTooLarge,
    /// The price quoted is zero.
    ZeroPrice,
    /// The exchange asks for more decimal places than the sizing handles.
    PrecisionTooFine,
    /// The entry order ended without filling.
    OrderFailed(OrderStatus),
}

pub open spec fn pow10(p: nat) -> nat
    decreases p,
{
    if p == 0 {
        1
    } else {
        10 * pow10((p - 1) as nat)
    }
}

/// `10^p`.
pub fn pow10_exec(p: u32) -> (r: u128)
    requires
        p <= MAX_PRECISION,
    ensures
        r == pow10(p as nat),
        r <= 1_000_000_000_000_000_000,
{
    let mut r: u128 = 1;
    let mut i: u32 = 0;
    proof {
        reveal_with_fuel(pow10, 19);
        assert(pow10(18) == 1_000_000_000_000_000_000);
    }
    while i < p
        invariant
            i <= p <= MAX_PRECISION,
            r == pow10(i as nat),
            r <= pow10(i as nat),
            pow10(i as nat) * pow10((MAX_PRECISION - i) as nat) == 1_000_000_000_000_000_000,
        decreases p - i,
    {
        proof {
            let a = pow10(i as nat);
            let b = pow10((MAX_PRECISION - i - 1) as nat);
            assert(pow10((MAX_PRECISION - i) as nat) == 10 * b);
            assert(a * (10 * b) == (10 * a) * b) by (nonlinear_arith);
            assert(b >= 1) by {
                lemma_pow10_positive((MAX_PRECISION - i - 1) as nat);
            }
            assert(10 * a <= 1_000_000_000_000_000_000) by (nonlinear_arith)
                requires
                    (10 * a) * b == 1_000_000_000_000_000_000,
                    b >= 1,
                    a >= 0,
            ;
        }
        r = r * 10;
        i = i + 1;
    }
    proof {
        lemma_pow10_positive((MAX_PRECISION - p) as nat);
        let a = pow10(p as nat);
        let b = pow10((MAX_PRECISION - p) as nat);
        assert(a <= 1_000_000_000_000_000_000) by (nonlinear_arith)
            requires
                a * b == 1_000_000_000_000_000_000,
                b >= 1,
                a >= 0,
        ;
    }
    r
}

proof fn lemma_pow10_positive(p: nat)
    ensures
        pow10(p) >= 1,
    decreases p,
{
    if p > 0 {
        lemma_pow10_positive((p - 1) as nat);
    }
}

/// Quantity to submit, in steps of `10^-precision` coins: the target
/// notional over the price, rounded to the nearest step (halves up).
pub open spec fn rounded_steps(target: u64, price: u64, precision: u32) -> int {
    (2 * target * pow10(precision as nat) + price) / (2 * price as int)
}

/// Sizes the entry order: the quantity of `target_notional` at `price`,
/// in steps of the exchange's quantity precision.
pub fn quantity_steps(target_notional: u64, price: u64, precision: u32) -> (r: Result<u128, AcquisitionError>)
    ensures
        target_notional == 0 ==> r == Err::<u128, AcquisitionError>(AcquisitionError::ZeroSize),
        target_notional > 0 && price == 0 ==> r == Err::<u128, AcquisitionError>(AcquisitionError::ZeroPrice),
        target_notional > 0 && price > 0 && precision > MAX_PRECISION
            ==> r == Err::<u128, AcquisitionError>(AcquisitionError::PrecisionTooFine),
        target_notional > 0 && price > 0 && precision <= MAX_PRECISION
            ==> r == Ok::<u128, AcquisitionError>(rounded_steps(target_notional, price, precision) as u128),
{
    if target_notional == 0 {
        return Err(AcquisitionError::ZeroSize);
    }
    if price == 0 {
        return Err(AcquisitionError::ZeroPrice);
    }
    if precision > MAX_PRECISION {
        return Err(AcquisitionError::PrecisionTooFine);
    }
    let f = pow10_exec(precision);
    assert(2 * (target_notional as int) * (f as int) <= 2 * 0xffff_ffff_ffff_ffff * 1_000_000_000_000_000_000)
        by (nonlinear_arith)
        requires
            target_notional <= 0xffff_ffff_ffff_ffff,
            f <= 1_000_000_000_000_000_000,
    ;
    let num: u128 = 2 * (target_notional as u128) * f + price as u128;
    let q = num / (2 * price as u128);
    Ok(q)
}

/// Splits a quantity in steps into whole coins and the remaining steps.
pub fn quantity_parts(steps: u128, precision: u32) -> (r: (u128, u128))
    requires
        precision <= MAX_PRECISION,
    ensures
        r.0 * pow10(precision as nat) + r.1 == steps,
        r.1 < pow10(precision as nat),
{
    let f = pow10_exec(precision);
    proof {
        lemma_pow10_positive(precision as nat);
    }
    let (w, rest) = (steps / f, steps % f);
    assert(w * f + rest == steps) by (nonlinear_arith)
        requires
            f > 0,
            w == steps / f,
            rest == steps % f,
    ;
    (w, rest)
}

/// Turns a signed share of the balance, in basis points, into a position:
/// a positive share buys, a negative one sells, zero is refused.
pub fn spec_from_size(asset: String, size_bp: i64, balance: u64) -> (r: Result<PositionSpec, AcquisitionError>)
    ensures
        size_bp == 0 ==> r is Err && r->Err_0 == AcquisitionError::ZeroSize,
        size_bp != 0 && abs_bp(size_bp) * balance / (SIZE_SCALE as int) > u64::MAX
            ==> r is Err && r->Err_0 == AcquisitionError::SizeTooLarge,
        size_bp != 0 && abs_bp(size_bp) * balance / (SIZE_SCALE as int) <= u64::MAX ==> (r matches Ok(p) && {
            &&& p.asset == asset
            &&& p.side == if size_bp > 0 { Side::Buy } else { Side::Sell }
            &&& p.target_notional == abs_bp(size_bp) * balance / (SIZE_SCALE as int)
        }),
{
    if size_bp == 0 {
        return Err(AcquisitionError::ZeroSize);
    }
    let (side, mag): (Side, u64) = if size_bp > 0 {
        (Side::Buy, size_bp as u64)
    } else {
        (Side::Sell, (-(size_bp as i128)) as u64)
    };
    assert((mag as int) * (balance as int) <= 0xffff_ffff_ffff_ffff * 0xffff_ffff_ffff_ffff) by (nonlinear_arith)
        requires
            mag <= 0xffff_ffff_ffff_ffff,
            balance <= 0xffff_ffff_ffff_ffff,
    ;
    let t: u128 = (mag as u128) * (balance as u128) / (SIZE_SCALE as u128);
    if t > u64::MAX as u128 {
        return Err(AcquisitionError::SizeTooLarge);
    }
    Ok(PositionSpec::new(asset, side, t as u64))
}

pub open spec fn abs_bp(x: i64) -> int {
    if x < 0 {
        -x
    } else {
        x as int
    }
}

/// What the polling loop does with a reported order status.
#[derive(Debug, Clone, Copy, PartialEq, Eq, Structural)]
pub enum PollOutcome {
    /// Not filled yet: poll again.
    Pending,
    /// Filled: acquisition is complete.
    Filled,
    /// Ended without filling: acquisition fails.
    Failed,
}

pub fn poll_outcome(status: OrderStatus) -> (r: PollOutcome)
    ensures
        r == PollOutcome::Filled <==> status == OrderStatus::Filled,
        r == PollOutcome::Failed <==> is_terminal_failure(status),
        r == PollOutcome::Pending <==> (status == OrderStatus::New || status == OrderStatus::PartiallyFilled),
{
    match status {
        OrderStatus::New | OrderStatus::PartiallyFilled => PollOutcome::Pending,
        OrderStatus::Filled => PollOutcome::Filled,
        OrderStatus::Canceled | OrderStatus::Expired | OrderStatus::ExpiredInMatch => PollOutcome::Failed,
    }
}

/// An acquisition under way or completed.
#[derive(Debug)]
pub struct PositionAcquisition {
    pub spec: PositionSpec,
    pub target_notional: u64,
    pub acquired_notional: u64,
}

impl PositionAcquisition {
    /// An acquisition of `spec` with nothing acquired yet.
    pub fn start(spec: PositionSpec) -> (r: PositionAcquisition)
        ensures
            r.target_notional == spec.target_notional,
            r.acquired_notional == 0,
            r.spec == spec,
    {
        let target = spec.target_notional;
        PositionAcquisition { spec, target_notional: target, acquired_notional: 0 }
    }

    /// A stand-in acquisition with a small fixed notional, for dry runs.
    pub fn dbg_new(spec: PositionSpec) -> (r: PositionAcquisition)
        ensures
            r.target_notional == 10,
            r.acquired_notional == 10,
            r.spec == spec,
    {
        PositionAcquisition { spec, target_notional: 10, acquired_notional: 10 }
    }

    /// Takes one poll of the entry order. Returns whether acquisition is
    /// complete; a filled order adds its filled notional, saturating.
    pub fn on_poll(&mut self, status: OrderStatus, filled_notional: u64) -> (r: Result<bool, AcquisitionError>)
        ensures
            final(self).spec == old(self).spec,
            final(self).target_notional == old(self).target_notional,
            status == OrderStatus::Filled ==> r == Ok::<bool, AcquisitionError>(true)
                && final(self).acquired_notional == if old(self).acquired_notional + filled_notional > u64::MAX {
                    u64::MAX as int
                } else {
                    old(self).acquired_notional + filled_notional
                },
            (status == OrderStatus::New || status == OrderStatus::PartiallyFilled)
                ==> r == Ok::<bool, AcquisitionError>(false) && final(self).acquired_notional == old(self).acquired_notional,
            is_terminal_failure(status) ==> r == Err::<bool, AcquisitionError>(AcquisitionError::OrderFailed(status))
                && final(self).acquired_notional == old(self).acquired_notional,
    {
        match poll_outcome(status) {
            PollOutcome::Pending => Ok(false),
            PollOutcome::Filled => {
                self.acquired_notional = self.acquired_notional.saturating_add(filled_notional);
                Ok(true)
            },
            PollOutcome::Failed => Err(AcquisitionError::OrderFailed(status)),
        }
    }
}

} // verus!
