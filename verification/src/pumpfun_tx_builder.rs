//! Pricing of pump.fun trades against a bonding curve's virtual reserves.

use vstd::prelude::*;

verus! {

/// Basis points in a whole.
pub const BPS_DENOMINATOR: u64 = 10_000;

/// What a constant-product bonding curve pays out for `amount_in`, given
/// its virtual reserve of the paid-in asset and of the paid-out asset
/// (rounded down).
pub open spec fn expected_out(amount_in: int, reserve_in: int, reserve_out: int) -> int {
    (amount_in * reserve_out) / (reserve_in + amount_in)
}

/// The least output a trade may return: the expected output less a
/// slippage tolerance of `slippage_bps` basis points, rounded down.
pub open spec fn min_out(amount_in: int, reserve_in: int, reserve_out: int, slippage_bps: int) -> int {
    expected_out(amount_in, reserve_in, reserve_out) * (BPS_DENOMINATOR - slippage_bps) / (
    BPS_DENOMINATOR as int)
}

/// The SOL a bonding curve pays for `token_amount` tokens.
pub open spec fn expected_sol_out(
    token_amount: int,
    virtual_sol_reserves: int,
    virtual_token_reserves: int,
) -> int {
    expected_out(token_amount, virtual_token_reserves, virtual_sol_reserves)
}

/// The least SOL a sell of `token_amount` tokens may return.
pub open spec fn min_sol_out(
    token_amount: int,
    virtual_sol_reserves: int,
    virtual_token_reserves: int,
    slippage_bps: int,
) -> int {
    min_out(token_amount, virtual_token_reserves, virtual_sol_reserves, slippage_bps)
}

/// The tokens a bonding curve gives for `sol_amount` lamports.
pub open spec fn expected_tokens_out(
    sol_amount: int,
    virtual_sol_reserves: int,
    virtual_token_reserves: int,
) -> int {
    expected_out(sol_amount, virtual_sol_reserves, virtual_token_reserves)
}

/// The least tokens a buy with `sol_amount` lamports may return.
pub open spec fn min_tokens_out(
    sol_amount: int,
    virtual_sol_reserves: int,
    virtual_token_reserves: int,
    slippage_bps: int,
) -> int {
    min_out(sol_amount, virtual_sol_reserves, virtual_token_reserves, slippage_bps)
}

/// Constant-product output less the slippage tolerance.
fn min_output_after_slippage(
    amount_in: u64,
    reserve_in: u64,
    reserve_out: u64,
    slippage_bps: u64,
) -> (min: u64)
    requires
        amount_in * reserve_out <= u64::MAX,
        reserve_in + amount_in <= u64::MAX,
        reserve_in + amount_in > 0,
        slippage_bps <= BPS_DENOMINATOR,
    ensures
        min == min_out(amount_in as int, reserve_in as int, reserve_out as int, slippage_bps as int),
        min <= expected_out(amount_in as int, reserve_in as int, reserve_out as int),
{
    let expected = (amount_in * reserve_out) / (reserve_in + amount_in);
    let keep = (BPS_DENOMINATOR - slippage_bps) as u128;
    assert(expected as u128 * keep <= u64::MAX as u128 * 10_000) by (nonlinear_arith)
        requires
            expected <= u64::MAX,
            keep <= 10_000,
    ;
    let scaled = expected as u128 * keep;
    let min = scaled / (BPS_DENOMINATOR as u128);
    assert(min <= expected) by (nonlinear_arith)
        requires
            min == scaled / 10_000,
            scaled == expected * keep,
            keep <= 10_000,
    ;
    min as u64
}

/// The least SOL a sell of `token_amount` tokens may return, with a
/// slippage tolerance of `slippage_bps` basis points.
pub fn sell_min_sol_output(
    token_amount: u64,
    virtual_sol_reserves: u64,
    virtual_token_reserves: u64,
    slippage_bps: u64,
) -> (min_sol: u64)
    requires
        token_amount * virtual_sol_reserves <= u64::MAX,
        virtual_token_reserves + token_amount <= u64::MAX,
        virtual_token_reserves + token_amount > 0,
        slippage_bps <= BPS_DENOMINATOR,
    ensures
        min_sol == min_sol_out(
            token_amount as int,
            virtual_sol_reserves as int,
            virtual_token_reserves as int,
            slippage_bps as int,
        ),
        min_sol <= expected_sol_out(
            token_amount as int,
            virtual_sol_reserves as int,
            virtual_token_reserves as int,
        ),
{
    min_output_after_slippage(token_amount, virtual_token_reserves, virtual_sol_reserves, slippage_bps)
}

/// The least tokens a buy with `sol_amount` lamports may return, with a
/// slippage tolerance of `slippage_bps` basis points.
pub fn buy_min_token_output(
    sol_amount: u64,
    virtual_sol_reserves: u64,
    virtual_token_reserves: u64,
    slippage_bps: u64,
) -> (min_tokens: u64)
    requires
        sol_amount * virtual_token_reserves <= u64::MAX,
        virtual_sol_reserves + sol_amount <= u64::MAX,
        virtual_sol_reserves + sol_amount > 0,
        slippage_bps <= BPS_DENOMINATOR,
    ensures
        min_tokens == min_tokens_out(
            sol_amount as int,
            virtual_sol_reserves as int,
            virtual_token_reserves as int,
            slippage_bps as int,
        ),
        min_tokens <= expected_tokens_out(
            sol_amount as int,
            virtual_sol_reserves as int,
            virtual_token_reserves as int,
        ),
{
    min_output_after_slippage(sol_amount, virtual_sol_reserves, virtual_token_reserves, slippage_bps)
}

/// A wider slippage tolerance never raises the least acceptable output.
pub proof fn law_wider_slippage_never_raises_minimum(
    amount_in: int,
    reserve_in: int,
    reserve_out: int,
    tight_bps: int,
    wide_bps: int,
)
    requires
        0 <= amount_in,
        0 <= reserve_in,
        0 <= reserve_out,
        reserve_in + amount_in > 0,
        0 <= tight_bps <= wide_bps <= BPS_DENOMINATOR,
    ensures
        min_out(amount_in, reserve_in, reserve_out, wide_bps) <= min_out(
            amount_in,
            reserve_in,
            reserve_out,
            tight_bps,
        ),
{
    let e = expected_out(amount_in, reserve_in, reserve_out);
    assert(e >= 0) by (nonlinear_arith)
        requires
            e == (amount_in * reserve_out) / (reserve_in + amount_in),
            amount_in >= 0,
            reserve_out >= 0,
            reserve_in + amount_in > 0,
    ;
    assert(e * (10_000 - wide_bps) <= e * (10_000 - tight_bps)) by (nonlinear_arith)
        requires
            e >= 0,
            tight_bps <= wide_bps,
    ;
    assert(e * (10_000 - wide_bps) / 10_000 <= e * (10_000 - tight_bps) / 10_000) by (
    nonlinear_arith)
        requires
            e * (10_000 - wide_bps) <= e * (10_000 - tight_bps),
    ;
}

} // verus!
