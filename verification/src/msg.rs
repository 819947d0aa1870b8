//! The messages and responses of the basket's public surface, carried as
//! plain values; the surrounding layer attaches its own wire encodings.

use crate::fp::FPDecimal;
use vstd::prelude::*;

verus! {

/// The four shape parameters of the penalty curve, fixed per basket.
#[derive(Clone, Copy, PartialEq, Eq, Structural, Debug)]
pub struct PenaltyParams {
    pub a_pos: FPDecimal,
    pub s_pos: FPDecimal,
    pub a_neg: FPDecimal,
    pub s_neg: FPDecimal,
}

/// The configuration of one basket instance.
#[derive(Clone, Debug)]
pub struct BasketConfig {
    /// Basket name (title)
    pub name: String,
    /// Basket's permissioned owner
    pub owner: String,
    /// Basket token address
    pub basket_token: Option<String>,
    /// Asset addresses
    pub assets: Vec<String>,
    /// Oracle address
    pub oracle: String,
    /// Penalty function params
    pub penalty_params: PenaltyParams,
}

/// A message forwarded alongside received basket or component tokens.
#[derive(Clone, Debug)]
pub enum Cw20HookMsg {
    /// After received, registers the received amount and prepares it to be
    /// used for minting
    StageAsset {},
    /// Burns assets
    Burn {
        /// optional proposed set of weights to use
        asset_weights: Option<Vec<u32>>,
    },
}

/// The basket's configuration, as answered to a query.
#[derive(Clone, Debug)]
pub struct ConfigResponse {
    pub config: BasketConfig,
}

/// The raw target weight vector, as answered to a query.
#[derive(Clone, Debug)]
pub struct TargetResponse {
    pub target: Vec<u32>,
}

/// The amount an account has staged for one asset, as answered to a query.
#[derive(Clone, Copy, PartialEq, Eq, Structural, Debug)]
pub struct StagedAmountResponse {
    pub staged_amount: u128,
}

/// A snapshot of the basket's state, as answered to a query.
#[derive(Clone, Debug)]
pub struct BasketStateResponse {
    pub penalty_params: PenaltyParams,
    pub outstanding_balance_tokens: u128,
    pub prices: Vec<FPDecimal>,
    pub inv: Vec<u128>,
    pub assets: Vec<String>,
    pub target: Vec<u32>,
}

} // verus!
