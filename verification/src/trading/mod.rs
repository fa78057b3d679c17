//! Exchange connectors: order vocabulary and the exchanges' settings.
//! (Placing orders is not implemented by any connector yet.)

use vstd::prelude::*;

use crate::config::{BinanceConfig, LighterConfig};

verus! {

/// Side of an order.
#[derive(Clone, Copy, Debug, PartialEq, Eq, Structural)]
pub enum OrderSide {
    Buy,
    Sell,
}

/// Kind of an order.
#[derive(Clone, Copy, Debug, PartialEq, Eq, Structural)]
pub enum OrderType {
    Market,
    Limit,
}

/// An exchange's answer to an order.
pub struct OrderResponse {
    pub id: String,
    pub status: String,
}

/// Binance connector.
pub struct BinanceExchange {
    pub api_key: String,
    pub api_secret: String,
    pub base_url: String,
}

impl BinanceExchange {
    /// A connector with the credentials and endpoint of `cfg`.
    pub fn from_config(cfg: &BinanceConfig) -> (r: Self)
        ensures
            r.api_key@ == cfg.api_key@,
            r.api_secret@ == cfg.api_secret@,
            r.base_url@ == cfg.base_url@,
    {
        BinanceExchange {
            api_key: cfg.api_key.clone(),
            api_secret: cfg.api_secret.clone(),
            base_url: cfg.base_url.clone(),
        }
    }

    /// The exchange's name.
    pub fn name(&self) -> (r: &'static str)
        ensures
            r@ == "binance"@,
    {
        "binance"
    }
}

/// Lighter.xyz connector.
pub struct LighterExchange {
    pub api_url: String,
}

impl LighterExchange {
    /// A connector with the endpoint of `cfg`.
    pub fn from_config(cfg: &LighterConfig) -> (r: Self)
        ensures
            r.api_url@ == cfg.api_url@,
    {
        LighterExchange { api_url: cfg.api_url.clone() }
    }

    /// The exchange's name.
    pub fn name(&self) -> (r: &'static str)
        ensures
            r@ == "lighter"@,
    {
        "lighter"
    }
}

} // verus!
