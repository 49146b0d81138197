//! Configuration of the bot.
//!
//! Fractions are held as integers: the grid bounds in parts per million of
//! the reference price, the minimum quantity in units of `decimal`.
use vstd::prelude::*;
use crate::decimal::MAX_AMOUNT;

verus! {

/// Largest number of grid levels the library lays out: the largest count a
/// `usize` holds on every target (`u32::MAX`). Far below it, each grid price's
/// exact numerator, at most `MAX_AMOUNT * 11_000_000 * 2 * (levels - 1)`,
/// still fits in 128 bits.
pub const MAX_GRID_LEVELS: usize = 4_294_967_295;

pub struct Config {
    // API credentials
    pub api_key: String,
    pub api_secret: String,
    // Exchange settings
    pub base_url: String,
    pub ws_url: String,
    // Trading parameters
    pub symbol: String,
    /// Upper grid bound, parts per million above the reference price.
    pub grid_upper_bound: i64,
    /// Lower grid bound, parts per million relative to the reference price.
    pub grid_lower_bound: i64,
    pub grid_levels: usize,
    pub active_orders: usize,
    // Order parameters
    pub price_precision: usize,
    pub quantity_precision: usize,
    /// Minimum order quantity, in units.
    pub min_quantity: u64,
}

impl Clone for Config {
    fn clone(&self) -> (r: Self)
        ensures
            r == *self,
    {
        Config {
            api_key: self.api_key.clone(),
            api_secret: self.api_secret.clone(),
            base_url: self.base_url.clone(),
            ws_url: self.ws_url.clone(),
            symbol: self.symbol.clone(),
            grid_upper_bound: self.grid_upper_bound,
            grid_lower_bound: self.grid_lower_bound,
            grid_levels: self.grid_levels,
            active_orders: self.active_orders,
            price_precision: self.price_precision,
            quantity_precision: self.quantity_precision,
            min_quantity: self.min_quantity,
        }
    }
}

/// Why a configuration is refused.
#[derive(Debug, PartialEq, Eq, Structural)]
pub enum ConfigError {
    /// The grid bounds are out of order or outside -100% .. +1000%.
    GridBounds,
    /// Fewer than two, or more than `MAX_GRID_LEVELS`, grid levels.
    GridLevels,
    /// More than eight decimal places asked for prices or quantities.
    Precision,
    /// The minimum quantity exceeds `MAX_AMOUNT`.
    MinQuantity,
}

impl Config {
    /// The bounds within which the strategy's arithmetic is exact and fits
    /// its machine integers.
    pub open spec fn well_formed(&self) -> bool {
        &&& -1_000_000 <= self.grid_lower_bound <= self.grid_upper_bound <= 10_000_000
        &&& 2 <= self.grid_levels <= MAX_GRID_LEVELS
        &&& self.price_precision <= 8
        &&& self.quantity_precision <= 8
        &&& self.min_quantity <= MAX_AMOUNT
    }

    /// The first rule, in the order listed by `ConfigError`, that the
    /// configuration breaks.
    pub open spec fn first_error(&self) -> Option<ConfigError> {
        if !(-1_000_000 <= self.grid_lower_bound <= self.grid_upper_bound <= 10_000_000) {
            Some(ConfigError::GridBounds)
        } else if !(2 <= self.grid_levels <= MAX_GRID_LEVELS) {
            Some(ConfigError::GridLevels)
        } else if !(self.price_precision <= 8 && self.quantity_precision <= 8) {
            Some(ConfigError::Precision)
        } else if !(self.min_quantity <= MAX_AMOUNT) {
            Some(ConfigError::MinQuantity)
        } else {
            None
        }
    }

    /// Checks the configuration before the strategy uses it.
    pub fn validate(&self) -> (r: Result<(), ConfigError>)
        ensures
            r is Ok <==> self.well_formed(),
            r matches Err(e) ==> self.first_error() == Some(e),
    {
        if !(-1_000_000 <= self.grid_lower_bound && self.grid_lower_bound <= self.grid_upper_bound
            && self.grid_upper_bound <= 10_000_000) {
            return Err(ConfigError::GridBounds);
        }
        if !(2 <= self.grid_levels && self.grid_levels <= MAX_GRID_LEVELS) {
            return Err(ConfigError::GridLevels);
        }
        if !(self.price_precision <= 8 && self.quantity_precision <= 8) {
            return Err(ConfigError::Precision);
        }
        if !(self.min_quantity <= MAX_AMOUNT) {
            return Err(ConfigError::MinQuantity);
        }
        Ok(())
    }
}

} // verus!
